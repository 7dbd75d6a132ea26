//! How much the service is used, counted by the hour.

use crate::text::{begins, chars_of, decimal, eq_text, push_decimal, starts_with};
use std::collections::HashSet;
use vstd::prelude::*;
use vstd::string::StringExecFns;

verus! {

broadcast use vstd::std_specs::hash::group_hash_axioms;

/// How often each kind of request was served.
#[derive(Clone, Copy, Debug, PartialEq, Eq, Structural)]
pub struct Counts {
    pub pages: u64,
    pub searches: u64,
    pub articles: u64,
    pub puzzles: u64,
    pub submits: u64,
    pub compass: u64,
    pub other: u64,
}

/// One more, back to zero after the last.
pub open spec fn one_more(n: u64) -> u64 {
    if n == u64::MAX {
        0
    } else {
        (n + 1) as u64
    }
}

/// No request at all.
pub open spec fn no_requests() -> Counts {
    Counts { pages: 0, searches: 0, articles: 0, puzzles: 0, submits: 0, compass: 0, other: 0 }
}

/// The counts with one more request for a path.
pub open spec fn counted(c: Counts, path: Seq<char>) -> Counts {
    if path == "/"@ {
        Counts { pages: one_more(c.pages), ..c }
    } else if path == "/api/search"@ {
        Counts { searches: one_more(c.searches), ..c }
    } else if begins(path, "/api/article/"@) {
        Counts { articles: one_more(c.articles), ..c }
    } else if path == "/api/puzzle"@ || path == "/api/daily"@ {
        Counts { puzzles: one_more(c.puzzles), ..c }
    } else if path == "/api/submit"@ {
        Counts { submits: one_more(c.submits), ..c }
    } else if path == "/api/compass"@ {
        Counts { compass: one_more(c.compass), ..c }
    } else {
        Counts { other: one_more(c.other), ..c }
    }
}

/// Counters of use. What they count since the last line goes into the next;
/// the visitors are those of the day so far.
pub struct Analytics {
    pub counts: Counts,
    /// The day that `seen` is of, as a number of days since 1970.
    pub day: u64,
    /// The visitors seen that day, hashed: no address is kept.
    pub seen: HashSet<u64>,
}

/// The visitors of a day after one more request, where `last` is the day that
/// `seen` is for.
pub open spec fn seen_on(seen: Set<u64>, last: u64, visitor: u64, day: u64) -> Set<u64> {
    if last == day {
        seen.insert(visitor)
    } else {
        Set::empty().insert(visitor)
    }
}


/// The line that is logged, with the names in order.
pub open spec fn line_text(c: Counts, day: u64, ts: u64, visitors: nat) -> Seq<char> {
    "{\"articles\":"@ + decimal(c.articles as nat) + ",\"compass\":"@ + decimal(c.compass as nat)
        + ",\"day\":"@ + decimal(day as nat) + ",\"other\":"@ + decimal(c.other as nat)
        + ",\"pages\":"@ + decimal(c.pages as nat) + ",\"puzzles\":"@ + decimal(c.puzzles as nat)
        + ",\"searches\":"@ + decimal(c.searches as nat) + ",\"submits\":"@ + decimal(
        c.submits as nat,
    ) + ",\"ts\":"@ + decimal(ts as nat) + ",\"uniques_today\":"@ + decimal(visitors) + "}"@
}

impl Analytics {
    pub fn new() -> (r: Analytics)
        ensures
            r.counts == no_requests(),
            r.day == 0,
            r.seen@ == Set::<u64>::empty(),
    {
        Analytics {
            counts: Counts {
                pages: 0,
                searches: 0,
                articles: 0,
                puzzles: 0,
                submits: 0,
                compass: 0,
                other: 0,
            },
            day: 0,
            seen: HashSet::new(),
        }
    }

    /// Count a request that was served to a visitor on a day.
    pub fn hit(&mut self, path: &str, visitor: u64, day: u64)
        ensures
            final(self).counts == counted(old(self).counts, path@),
            final(self).day == day,
            final(self).seen@ == (if old(self).day == day {
                old(self).seen@.insert(visitor)
            } else {
                Set::empty().insert(visitor)
            }),
            final(self).seen@ == seen_on(old(self).seen@, old(self).day, visitor, day),
    {
        let chars = chars_of(path);
        let article = chars_of("/api/article/");
        let mut c: Counts = self.counts;
        if eq_text(path, "/") {
            c.pages = c.pages.wrapping_add(1);
        } else if eq_text(path, "/api/search") {
            c.searches = c.searches.wrapping_add(1);
        } else if starts_with(chars.as_slice(), article.as_slice()) {
            c.articles = c.articles.wrapping_add(1);
        } else if eq_text(path, "/api/puzzle") || eq_text(path, "/api/daily") {
            c.puzzles = c.puzzles.wrapping_add(1);
        } else if eq_text(path, "/api/submit") {
            c.submits = c.submits.wrapping_add(1);
        } else if eq_text(path, "/api/compass") {
            c.compass = c.compass.wrapping_add(1);
        } else {
            c.other = c.other.wrapping_add(1);
        }
        self.counts = c;
        if self.day != day {
            self.day = day;
            self.seen = HashSet::new();
        }
        self.seen.insert(visitor);
    }

    /// The line to log, and the counts start again. Nothing where there was no
    /// request. The visitors stay: they are those of the day so far.
    pub fn flush_line(&mut self, ts: u64) -> (r: Option<String>)
        ensures
            final(self).counts == no_requests(),
            final(self).day == old(self).day,
            final(self).seen@ == old(self).seen@,
            match r {
                Some(line) => old(self).counts != no_requests() && line@ == line_text(
                    old(self).counts,
                    old(self).day,
                    ts,
                    old(self).seen@.len(),
                ),
                None => old(self).counts == no_requests(),
            },
    {
        let c: Counts = self.counts;
        self.counts = Counts {
            pages: 0,
            searches: 0,
            articles: 0,
            puzzles: 0,
            submits: 0,
            compass: 0,
            other: 0,
        };
        if c == self.counts {
            return None;
        }
        let mut s = String::from_str("{\"articles\":");
        push_decimal(&mut s, c.articles);
        s.append(",\"compass\":");
        push_decimal(&mut s, c.compass);
        s.append(",\"day\":");
        push_decimal(&mut s, self.day);
        s.append(",\"other\":");
        push_decimal(&mut s, c.other);
        s.append(",\"pages\":");
        push_decimal(&mut s, c.pages);
        s.append(",\"puzzles\":");
        push_decimal(&mut s, c.puzzles);
        s.append(",\"searches\":");
        push_decimal(&mut s, c.searches);
        s.append(",\"submits\":");
        push_decimal(&mut s, c.submits);
        s.append(",\"ts\":");
        push_decimal(&mut s, ts);
        s.append(",\"uniques_today\":");
        push_decimal(&mut s, self.seen.len() as u64);
        s.append("}");
        Some(s)
    }
}

impl Default for Analytics {
    fn default() -> (r: Self)
        ensures
            r.counts == no_requests(),
            r.day == 0,
            r.seen@ == Set::<u64>::empty(),
    {
        Analytics::new()
    }
}

// ---------------------------------------------------------------------------
// Laws
// ---------------------------------------------------------------------------

/// How many requests were counted, of every kind.
pub open spec fn requests(c: Counts) -> int {
    c.pages + c.searches + c.articles + c.puzzles + c.submits + c.compass + c.other
}

/// Every request is counted, and once: whatever the path, there is one more
/// in all, as long as no counter is at its last value.
pub proof fn law_requests_are_counted_once(c: Counts, path: Seq<char>)
    requires
        requests(c) < u64::MAX,
    ensures
        requests(counted(c, path)) == requests(c) + 1,
{
}

/// A visitor who comes again on a day is not counted again.
pub proof fn law_visitors_are_counted_once(seen: Set<u64>, visitor: u64)
    requires
        seen.finite(),
        seen.contains(visitor),
    ensures
        seen.insert(visitor).len() == seen.len(),
{
    assert(seen.insert(visitor) =~= seen);
}

/// Which count a request adds one to, and no other: the front page, searches,
/// articles, puzzles whether of the day or not, handed in runs, uses of the
/// compass, and the rest.
pub proof fn law_requests_add_one(c: Counts, name: Seq<char>, path: Seq<char>)
    requires
        requests(c) < u64::MAX,
    ensures
        counted(c, "/"@) == (Counts { pages: (c.pages + 1) as u64, ..c }),
        counted(c, "/api/search"@) == (Counts { searches: (c.searches + 1) as u64, ..c }),
        counted(c, "/api/article/"@ + name) == (Counts { articles: (c.articles + 1) as u64, ..c }),
        counted(c, "/api/puzzle"@) == (Counts { puzzles: (c.puzzles + 1) as u64, ..c }),
        counted(c, "/api/daily"@) == (Counts { puzzles: (c.puzzles + 1) as u64, ..c }),
        counted(c, "/api/submit"@) == (Counts { submits: (c.submits + 1) as u64, ..c }),
        counted(c, "/api/compass"@) == (Counts { compass: (c.compass + 1) as u64, ..c }),
        counted(c, path).other == c.other + 1 <==> !({
            ||| path == "/"@
            ||| path == "/api/search"@
            ||| begins(path, "/api/article/"@)
            ||| path == "/api/puzzle"@
            ||| path == "/api/daily"@
            ||| path == "/api/submit"@
            ||| path == "/api/compass"@
        }),
{
    reveal_strlit("/");
    reveal_strlit("/api/search");
    reveal_strlit("/api/article/");
    reveal_strlit("/api/puzzle");
    reveal_strlit("/api/daily");
    reveal_strlit("/api/submit");
    reveal_strlit("/api/compass");
    let a = "/api/article/"@;
    let n = a.len() as int;
    let p = a + name;
    assert(p.subrange(0, n) =~= a);
    assert(p[5] == a[5]);
    assert(a[5] == 'a');
    assert("/api/search"@[6] == 'e');
    assert("/api/submit"@[6] == 'u');
    assert("/api/puzzle"@[5] == 'p');
    assert("/api/daily"@[5] == 'd');
    assert("/api/compass"@[5] == 'c');
    assert("/api/search"@[5] == 's');
    assert forall|q: Seq<char>| #[trigger] begins(q, a) implies q[5] == 'a' && q.len() >= 13 by {
        assert(q.subrange(0, n)[5] == q[5]);
    }
    assert(begins(p, a));
    assert("/"@.len() == 1);
    assert("/api/search"@.len() == 11);
    assert("/api/puzzle"@.len() == 11);
    assert("/api/submit"@.len() == 11);
    assert("/api/daily"@.len() == 10);
    assert("/api/compass"@.len() == 12);
    assert(!begins("/"@, a));
    assert(!begins("/api/search"@, a));
    assert(!begins("/api/puzzle"@, a));
    assert(!begins("/api/submit"@, a));
    assert(!begins("/api/daily"@, a));
    assert(!begins("/api/compass"@, a));
}
/// Each day has its own visitors: whoever came on it, and nobody from the day
/// before.
pub proof fn law_each_day_has_its_own_visitors(
    seen: Set<u64>,
    last: u64,
    visitor: u64,
    day: u64,
    other: u64,
)
    requires
        other != visitor,
    ensures
        seen_on(seen, last, visitor, day).contains(visitor),
        last == day ==> (seen_on(seen, last, visitor, day).contains(other) <==> seen.contains(other)),
        last != day ==> !seen_on(seen, last, visitor, day).contains(other),
{
}
} // verus!
