use vstd::prelude::*;

verus! {

/// A calendar date, held as year, month and day.
#[derive(Clone, Copy, Debug, PartialEq, Eq)]
pub struct PubDate {
    pub year: u16,
    pub month: u8,
    pub day: u8,
}

impl PubDate {
    /// The position of the date on the time line: year, month and day packed
    /// into one number, so that keys are ordered as (year, month, day) are.
    pub open spec fn key_spec(self) -> int {
        self.year as int * 65536 + self.month as int * 256 + self.day as int
    }

    pub fn key(&self) -> (r: u32)
        ensures
            r as int == self.key_spec(),
    {
        self.year as u32 * 65536 + self.month as u32 * 256 + self.day as u32
    }
}

/// Keys order dates as their years, then months, then days do.
pub proof fn lemma_key_orders_dates(a: PubDate, b: PubDate)
    ensures
        a.key_spec() < b.key_spec() <==> (a.year < b.year || (a.year == b.year && (a.month < b.month
            || (a.month == b.month && a.day < b.day)))),
        a.key_spec() == b.key_spec() <==> a == b,
{
}

/// An article of a season: where its source lies, when it was published and,
/// once its source has been read, its markdown text.
#[derive(Clone, Debug)]
pub struct Article {
    pub slug: String,
    pub file: String,
    pub title: String,
    pub pub_date: PubDate,
    pub markdown: String,
}

impl Article {
    /// The key that orders articles by publication date.
    pub open spec fn date_key(self) -> int {
        self.pub_date.key_spec()
    }
}

/// The articles are in order of publication date.
pub open spec fn sorted_by_date(s: Seq<Article>) -> bool {
    forall|i: int, j: int| 0 <= i < j < s.len() ==> #[trigger] s[i].date_key() <= #[trigger] s[j].date_key()
}

/// The articles of `s` published on the date of key `d`, in their order in `s`.
pub open spec fn dated(s: Seq<Article>, d: int) -> Seq<Article>
    decreases s.len(),
{
    if s.len() == 0 {
        seq![]
    } else if s.last().date_key() == d {
        dated(s.drop_last(), d).push(s.last())
    } else {
        dated(s.drop_last(), d)
    }
}

/// `r` is `s` sorted by date, where articles of one date keep their order in `s`.
pub open spec fn is_stable_date_sort(r: Seq<Article>, s: Seq<Article>) -> bool {
    &&& sorted_by_date(r)
    &&& forall|d: int| #[trigger] dated(r, d) == dated(s, d)
}

proof fn lemma_dated_insert(s: Seq<Article>, p: int, x: Article, d: int)
    requires
        0 <= p <= s.len(),
        forall|j: int| p <= j < s.len() ==> #[trigger] s[j].date_key() > x.date_key(),
    ensures
        dated(s.insert(p, x), d) == if x.date_key() == d {
            dated(s, d).push(x)
        } else {
            dated(s, d)
        },
    decreases s.len(),
{
    let t = s.insert(p, x);
    if p == s.len() {
        assert(t.drop_last() =~= s);
    } else {
        assert(t.drop_last() =~= s.drop_last().insert(p, x));
        assert(t.last() == s.last());
        lemma_dated_insert(s.drop_last(), p, x, d);
    }
}

/// The articles sorted by publication date; articles of one date keep the
/// order they had.
pub fn sort_by_date(articles: Vec<Article>) -> (r: Vec<Article>)
    ensures
        is_stable_date_sort(r@, articles@),
        r@.len() == articles@.len(),
{
    let ghost orig = articles@;
    let mut rest = articles;
    let mut sorted: Vec<Article> = Vec::new();
    let n = rest.len();
    let mut k: usize = 0;
    while k < n
        invariant
            n == orig.len(),
            k <= n,
            rest@ == orig.subrange(k as int, n as int),
            sorted@.len() == k,
            sorted_by_date(sorted@),
            forall|d: int| #[trigger] dated(sorted@, d) == dated(orig.subrange(0, k as int), d),
        decreases n - k,
    {
        let x = rest.remove(0);
        let key = x.pub_date.key();
        let mut p: usize = 0;
        while p < sorted.len() && sorted[p].pub_date.key() <= key
            invariant
                p <= sorted@.len(),
                forall|j: int| 0 <= j < p ==> #[trigger] sorted@[j].date_key() <= key,
            decreases sorted@.len() - p,
        {
            p = p + 1;
        }
        let ghost before = sorted@;
        proof {
            assert forall|j: int| p <= j < before.len() implies #[trigger] before[j].date_key()
                > x.date_key() by {
                assert(before[p as int].date_key() <= before[j].date_key());
            }
            assert forall|d: int| #[trigger] dated(before.insert(p as int, x), d) == dated(
                orig.subrange(0, k + 1),
                d,
            ) by {
                lemma_dated_insert(before, p as int, x, d);
                assert(orig.subrange(0, k + 1).drop_last() =~= orig.subrange(0, k as int));
            }
        }
        sorted.insert(p, x);
        proof {
            assert(sorted@ =~= before.insert(p as int, x));
            assert(rest@ =~= orig.subrange(k + 1, n as int));
        }
        k = k + 1;
    }
    assert(orig.subrange(0, n as int) =~= orig);
    sorted
}

} // verus!
