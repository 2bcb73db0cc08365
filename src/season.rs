use vstd::prelude::*;

use crate::article::{is_stable_date_sort, sort_by_date, sorted_by_date, Article};
use crate::summary::{extract_description, is_summary_end};
use crate::words::{
    compare_words, is_frequency_table, lemma_lex_lt_irreflexive, segmented_all, sorted_by_word,
    word_frequencies, frequency_in,
};
use core::cmp::Ordering;

verus! {

/// The introduction of a season: first the path of its source file, relative
/// to the source root, then, once that file has been read, its text.
#[derive(Clone, Debug)]
pub enum Intro {
    Unloaded(String),
    Loaded(String),
}

/// The introduction after its text `text` has been read: a path is replaced by
/// the text, a text already read stays as it is.
pub open spec fn intro_after_load(intro: Option<Intro>, text: String) -> Option<Intro> {
    match intro {
        Some(Intro::Unloaded(_)) => Some(Intro::Loaded(text)),
        _ => intro,
    }
}

/// The positions of the articles before and after position `i` among `n`
/// articles; none on either side where `i` is not a position.
pub open spec fn sibling_positions(n: int, i: int) -> (Option<int>, Option<int>) {
    if i < 0 || i >= n {
        (None, None)
    } else {
        (
            if i > 0 {
                Some(i - 1)
            } else {
                None
            },
            if i + 1 < n {
                Some(i + 1)
            } else {
                None
            },
        )
    }
}

/// What the page of one article is rendered with: its position, its number
/// counted from one, and the positions of the articles before and after it.
#[derive(Clone, Copy, Debug, PartialEq, Eq)]
pub struct ArticleStep {
    pub index: usize,
    pub number: usize,
    pub prev: Option<usize>,
    pub next: Option<usize>,
}

/// The step of the article at position `i` among `n` articles.
pub open spec fn step_at(n: int, i: int) -> ArticleStep {
    let (p, q) = sibling_positions(n, i);
    ArticleStep {
        index: i as usize,
        number: (i + 1) as usize,
        prev: match p {
            Some(j) => Some(j as usize),
            None => None,
        },
        next: match q {
            Some(j) => Some(j as usize),
            None => None,
        },
    }
}

/// The steps of `n` articles, one for each position, in order.
pub open spec fn steps_of(n: nat) -> Seq<ArticleStep> {
    Seq::new(n, |i: int| step_at(n as int, i))
}

/// The metadata of the season page.
#[derive(Clone, Debug)]
pub struct SeasonMeta {
    pub title: String,
    pub description: String,
    pub url: String,
    pub image: Option<String>,
}

/// A season: a numbered collection of articles under one directory.
#[derive(Debug)]
pub struct Season {
    pub slug: String,
    pub number: u32,
    pub title: String,
    pub intro: Option<Intro>,
    pub cover: Option<String>,
    pub path: String,
    pub articles: Vec<Article>,
    pub word_count: Vec<(String, usize)>,
}

impl Season {
    /// The text of the introduction once it has been read; empty before, and
    /// where there is none.
    pub open spec fn intro_text(self) -> Seq<char> {
        match self.intro {
            Some(Intro::Loaded(t)) => t@,
            _ => Seq::empty(),
        }
    }

    /// The state after parsing: the introduction, if any, read; the articles
    /// in order of publication; the word table that of the articles' text.
    pub open spec fn is_parsed(self) -> bool {
        &&& !(self.intro matches Some(Intro::Unloaded(_)))
        &&& sorted_by_date(self.articles@)
        &&& is_frequency_table(
            self.word_count@,
            segmented_all(self.articles@.map_values(|a: Article| a.markdown@)),
        )
    }

    /// A season as its configuration describes it: the introduction, if any,
    /// still a path, no articles and no word counts yet.
    pub fn new(
        slug: String,
        number: u32,
        title: String,
        intro: Option<String>,
        cover: Option<String>,
        path: String,
    ) -> (r: Season)
        ensures
            r.slug == slug,
            r.number == number,
            r.title == title,
            r.intro == match intro {
                Some(p) => Some(Intro::Unloaded(p)),
                None => None::<Intro>,
            },
            r.cover == cover,
            r.path == path,
            r.articles@.len() == 0,
            r.word_count@.len() == 0,
    {
        let intro = match intro {
            Some(p) => Some(Intro::Unloaded(p)),
            None => None,
        };
        Season {
            slug,
            number,
            title,
            intro,
            cover,
            path,
            articles: Vec::new(),
            word_count: Vec::new(),
        }
    }

    /// The path of the introduction's source, while it has not been read.
    pub fn intro_path(&self) -> (r: Option<&String>)
        ensures
            r.is_some() <==> (self.intro matches Some(Intro::Unloaded(_))),
            r.is_some() ==> self.intro == Some(Intro::Unloaded(*r.unwrap())),
    {
        match &self.intro {
            Some(Intro::Unloaded(p)) => Some(p),
            _ => None,
        }
    }

    /// Puts the text read from the introduction's path in place of the path.
    /// An introduction already read is kept: it is never taken for a path.
    pub fn load_intro(&mut self, text: String)
        ensures
            final(self).intro == intro_after_load(old(self).intro, text),
            final(self).slug == old(self).slug,
            final(self).number == old(self).number,
            final(self).title == old(self).title,
            final(self).cover == old(self).cover,
            final(self).path == old(self).path,
            final(self).articles == old(self).articles,
            final(self).word_count == old(self).word_count,
    {
        if let Some(Intro::Unloaded(_)) = &self.intro {
            self.intro = Some(Intro::Loaded(text));
        }
    }

    /// Takes the articles that the manifest lists, sorted by publication date;
    /// articles of one date keep their order in the manifest.
    pub fn load_articles(&mut self, articles: Vec<Article>)
        ensures
            is_stable_date_sort(final(self).articles@, articles@),
            final(self).articles@.len() == articles@.len(),
            final(self).slug == old(self).slug,
            final(self).number == old(self).number,
            final(self).title == old(self).title,
            final(self).intro == old(self).intro,
            final(self).cover == old(self).cover,
            final(self).path == old(self).path,
            final(self).word_count == old(self).word_count,
    {
        self.articles = sort_by_date(articles);
    }

    /// Counts the words of the articles' markdown: each word of at least two
    /// characters with its number of occurrences over all articles.
    pub fn analyze_words(&mut self)
        ensures
            is_frequency_table(
                final(self).word_count@,
                segmented_all(old(self).articles@.map_values(|a: Article| a.markdown@)),
            ),
            final(self).slug == old(self).slug,
            final(self).number == old(self).number,
            final(self).title == old(self).title,
            final(self).intro == old(self).intro,
            final(self).cover == old(self).cover,
            final(self).path == old(self).path,
            final(self).articles == old(self).articles,
            sorted_by_date(old(self).articles@) && !(old(self).intro matches Some(
                Intro::Unloaded(_),
            )) ==> final(self).is_parsed(),
    {
        let mut docs: Vec<&str> = Vec::new();
        let mut i: usize = 0;
        while i < self.articles.len()
            invariant
                i <= self.articles@.len(),
                docs@.len() == i,
                forall|j: int| 0 <= j < i ==> (#[trigger] docs@[j])@ == self.articles@[j].markdown@,
            decreases self.articles@.len() - i,
        {
            docs.push(self.articles[i].markdown.as_str());
            i = i + 1;
        }
        let table = word_frequencies(&docs);
        assert(docs@.map_values(|d: &str| d@) =~= self.articles@.map_values(
            |a: Article| a.markdown@,
        ));
        self.word_count = table;
    }

    /// How many times `word` occurs in the articles, as the word table gives it.
    pub fn frequency(&self, word: &str) -> (r: usize)
        ensures
            sorted_by_word(self.word_count@) ==> r == frequency_in(self.word_count@, word@),
    {
        let mut i: usize = 0;
        while i < self.word_count.len()
            invariant
                i <= self.word_count@.len(),
                forall|j: int| 0 <= j < i ==> (#[trigger] self.word_count@[j]).0@ != word@,
            decreases self.word_count@.len() - i,
        {
            if let Ordering::Equal = compare_words(self.word_count[i].0.as_str(), word) {
                proof {
                    let t = self.word_count@;
                    if sorted_by_word(t) {
                        let k = choose|k: int| 0 <= k < t.len() && t[k].0@ == word@;
                        if k != i {
                            lemma_lex_lt_irreflexive(word@);
                            if k < i {
                                assert(crate::words::lex_lt(t[k].0@, t[i as int].0@));
                            } else {
                                assert(crate::words::lex_lt(t[i as int].0@, t[k].0@));
                            }
                        }
                    }
                }
                return self.word_count[i].1;
            }
            i = i + 1;
        }
        0
    }

    /// The description of the season for the page's meta tag, from the text
    /// of its introduction; empty where there is none.
    pub fn description(&self) -> (r: String)
        ensures
            is_summary_end(self.intro_text(), r@.len() as int),
            r@ == self.intro_text().subrange(0, r@.len() as int),
    {
        match &self.intro {
            Some(Intro::Loaded(text)) => extract_description(text.as_str()),
            _ => {
                let r = String::new();
                assert(r@ =~= self.intro_text().subrange(0, 0));
                r
            },
        }
    }

    /// The articles before and after position `current`; `None` on either side
    /// where there is no such article, and on both sides where `current` is not
    /// a position of an article.
    pub fn sibling_articles(&self, current: usize) -> (r: (Option<&Article>, Option<&Article>))
        ensures
            ({
                let (p, q) = sibling_positions(self.articles@.len() as int, current as int);
                &&& r.0.is_some() == p.is_some()
                &&& p.is_some() ==> *r.0.unwrap() == self.articles@[p.unwrap()]
                &&& r.1.is_some() == q.is_some()
                &&& q.is_some() ==> *r.1.unwrap() == self.articles@[q.unwrap()]
            }),
    {
        let n = self.articles.len();
        if current >= n {
            return (None, None);
        }
        let prev = if current == 0 {
            None
        } else {
            Some(&self.articles[current - 1])
        };
        let next = if current + 1 < n {
            Some(&self.articles[current + 1])
        } else {
            None
        };
        (prev, next)
    }

    /// The steps that render the articles' pages, one for each article in
    /// order. Each is made fresh from its position alone.
    pub fn render_steps(&self) -> (r: Vec<ArticleStep>)
        ensures
            r@ == steps_of(self.articles@.len()),
    {
        let n = self.articles.len();
        let mut steps: Vec<ArticleStep> = Vec::new();
        let mut i: usize = 0;
        while i < n
            invariant
                n == self.articles@.len(),
                i <= n,
                steps@ =~= steps_of(n as nat).subrange(0, i as int),
            decreases n - i,
        {
            let prev = if i > 0 {
                Some(i - 1)
            } else {
                None
            };
            let next = if i + 1 < n {
                Some(i + 1)
            } else {
                None
            };
            steps.push(ArticleStep { index: i, number: i + 1, prev, next });
            i = i + 1;
        }
        assert(steps@ =~= steps_of(n as nat));
        steps
    }

    /// The metadata of the season page: its title, its description, its slug
    /// as address and its cover as image.
    pub fn meta(&self) -> (r: SeasonMeta)
        ensures
            r.title == self.title,
            is_summary_end(self.intro_text(), r.description@.len() as int),
            r.description@ == self.intro_text().subrange(0, r.description@.len() as int),
            r.url == self.slug,
            r.image == self.cover,
    {
        let image = match &self.cover {
            Some(c) => Some(c.clone()),
            None => None,
        };
        SeasonMeta {
            title: self.title.clone(),
            description: self.description(),
            url: self.slug.clone(),
            image,
        }
    }
}

/// At the two ends of a run of `n` articles: the first has nothing before it
/// and the second after it, if any; the last has nothing after it and the one
/// before last before it, if any; a lone article has neither.
pub proof fn lemma_sibling_bounds(n: int)
    requires
        n >= 1,
    ensures
        sibling_positions(n, 0) == (None::<int>, if n > 1 {
            Some(1int)
        } else {
            None
        }),
        sibling_positions(n, n - 1) == (if n > 1 {
            Some(n - 2)
        } else {
            None
        }, None::<int>),
        n == 1 ==> sibling_positions(n, 0) == (None::<int>, None::<int>),
{
}

/// Reading the introduction twice does what reading it once does: the second
/// text never replaces the first.
pub proof fn lemma_intro_loads_once(intro: Option<Intro>, first: String, second: String)
    ensures
        intro_after_load(intro_after_load(intro, first), second) == intro_after_load(intro, first),
{
}

/// A season with no articles, as a fresh one is, renders no article pages.
pub proof fn lemma_no_articles_no_steps()
    ensures
        steps_of(0) == Seq::<ArticleStep>::empty(),
{
    assert(steps_of(0) =~= Seq::<ArticleStep>::empty());
}

/// The step of each article is its own: it is made from its position alone,
/// so what one article's page is rendered with says nothing of another's.
pub proof fn lemma_steps_independent(n: nat, i: int, j: int)
    requires
        n <= usize::MAX,
        0 <= i < n,
        0 <= j < n,
        i != j,
    ensures
        steps_of(n)[i] == step_at(n as int, i),
        steps_of(n)[i].number == i + 1,
        steps_of(n)[i] != steps_of(n)[j],
{
    assert(steps_of(n)[i].index != steps_of(n)[j].index);
}

} // verus!
