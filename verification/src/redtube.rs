//! The video-search request model: the searchable fields and the exact
//! query parameters a request carries.  Sending the request and decoding
//! the response are I/O around this.

use vstd::prelude::*;

use crate::chars_to_string;
use crate::codec::dec_of;
use crate::str_to_chars;
use vstd::string::StrSliceExecFns;

verus! {

pub struct Category {
    pub category: String,
    pub id: u64,
}

pub struct Tag {
    pub tag_name: String,
}

#[derive(Clone, Copy)]
pub enum Period {
    Weekly,
    Monthly,
    AllTime,
}

impl Period {
    pub open spec fn label(self) -> Seq<char> {
        match self {
            Period::Weekly => "weekly"@,
            Period::Monthly => "monthly"@,
            Period::AllTime => "alltime"@,
        }
    }

    pub fn as_str(&self) -> (r: &'static str)
        ensures
            r@ == self.label(),
    {
        match self {
            Period::Weekly => "weekly",
            Period::Monthly => "monthly",
            Period::AllTime => "alltime",
        }
    }
}

impl Default for Period {
    fn default() -> (r: Period)
        ensures
            r is AllTime,
    {
        Period::AllTime
    }
}

#[derive(Clone, Copy)]
pub enum Ordering {
    MostViewed,
    Newest,
    Rating,
}

impl Ordering {
    pub open spec fn label(self) -> Seq<char> {
        match self {
            Ordering::MostViewed => "mostviewed"@,
            Ordering::Newest => "newest"@,
            Ordering::Rating => "rating"@,
        }
    }

    pub fn as_str(&self) -> (r: &'static str)
        ensures
            r@ == self.label(),
    {
        match self {
            Ordering::MostViewed => "mostviewed",
            Ordering::Newest => "newest",
            Ordering::Rating => "rating",
        }
    }
}

impl Default for Ordering {
    fn default() -> (r: Ordering)
        ensures
            r is MostViewed,
    {
        Ordering::MostViewed
    }
}

#[derive(Clone, Copy)]
pub enum Thumbsize {
    Medium,
    Small,
    Big,
    Medium1,
    Medium2,
    All,
}

impl Thumbsize {
    pub open spec fn label(self) -> Seq<char> {
        match self {
            Thumbsize::Medium => "medium"@,
            Thumbsize::Small => "small"@,
            Thumbsize::Big => "big"@,
            Thumbsize::Medium1 => "medium1"@,
            Thumbsize::Medium2 => "medium2"@,
            Thumbsize::All => "all"@,
        }
    }

    pub fn as_str(&self) -> (r: &'static str)
        ensures
            r@ == self.label(),
    {
        match self {
            Thumbsize::Medium => "medium",
            Thumbsize::Small => "small",
            Thumbsize::Big => "big",
            Thumbsize::Medium1 => "medium1",
            Thumbsize::Medium2 => "medium2",
            Thumbsize::All => "all",
        }
    }
}

impl Default for Thumbsize {
    fn default() -> (r: Thumbsize)
        ensures
            r is All,
    {
        Thumbsize::All
    }
}

/// Joining values with single commas, as the request's list fields appear.
pub open spec fn join_cm(ts: Seq<Seq<char>>) -> Seq<char>
    decreases ts.len(),
{
    if ts.len() == 0 {
        Seq::empty()
    } else if ts.len() == 1 {
        ts[0]
    } else {
        ts[0] + seq![','] + join_cm(ts.drop_first())
    }
}

proof fn lemma_join_cm_push(ts: Seq<Seq<char>>, x: Seq<char>)
    ensures
        ts.len() == 0 ==> join_cm(ts.push(x)) == x,
        ts.len() >= 1 ==> join_cm(ts.push(x)) == join_cm(ts) + seq![','] + x,
    decreases ts.len(),
{
    if ts.len() == 0 {
        assert(ts.push(x)[0] =~= x);
        assert(join_cm(ts.push(x)) == x);
    } else {
        lemma_join_cm_push(ts.drop_first(), x);
        assert(ts.push(x).drop_first() =~= ts.drop_first().push(x));
        if ts.len() == 1 {
            assert(join_cm(ts.push(x)) =~= ts[0] + seq![','] + x);
            assert(join_cm(ts) == ts[0]);
        } else {
            assert(join_cm(ts.push(x)) =~= ts[0] + seq![','] + join_cm(ts.drop_first()) + seq![',']
                + x);
            assert(join_cm(ts) + seq![','] + x =~= ts[0] + seq![','] + join_cm(ts.drop_first())
                + seq![','] + x);
        }
    }
}

/// Joins values with single commas.
fn join_commas(ts: &Vec<String>) -> (r: String)
    ensures
        r@ == join_cm(ts@.map_values(|t: String| t@)),
{
    let ghost tsv = ts@.map_values(|t: String| t@);
    let mut out: Vec<char> = Vec::new();
    let mut i: usize = 0;
    while i < ts.len()
        invariant
            i <= ts.len(),
            tsv == ts@.map_values(|t: String| t@),
            out@ == join_cm(tsv.take(i as int)),
        decreases ts.len() - i,
    {
        proof {
            assert(tsv.take(i + 1 as int) =~= tsv.take(i as int).push(tsv[i as int]));
            lemma_join_cm_push(tsv.take(i as int), tsv[i as int]);
        }
        if i > 0 {
            out.push(',');
        }
        let mut sc = str_to_chars(ts[i].as_str());
        out.append(&mut sc);
        i += 1;
    }
    proof {
        assert(tsv.take(ts@.len() as int) =~= tsv);
    }
    chars_to_string(out)
}

/// A search request: each set field becomes one query parameter.
#[derive(Default)]
pub struct SearchVideo {
    pub category: Option<String>,
    pub page: Option<u32>,
    pub search: Option<String>,
    pub tags: Option<Vec<String>>,
    pub stars: Option<Vec<String>>,
    pub ordering: Option<Ordering>,
    pub thumbsize: Option<Thumbsize>,
    pub period: Option<Period>,
}

impl SearchVideo {
    /// The exact query parameters the request carries, in order: page,
    /// search, tags, thumbsize, stars, ordering, period, each present
    /// exactly when its field is set.
    pub open spec fn params(self) -> Seq<(Seq<char>, Seq<char>)> {
        let p0 = Seq::<(Seq<char>, Seq<char>)>::empty();
        let p1 = if self.page is Some {
            p0.push(("page"@, dec_of(self.page->0 as nat)))
        } else {
            p0
        };
        let p2 = if self.search is Some {
            p1.push(("search"@, (self.search->0)@))
        } else {
            p1
        };
        let p3 = if self.tags is Some {
            p2.push(("tags"@, join_cm((self.tags->0)@.map_values(|t: String| t@))))
        } else {
            p2
        };
        let p4 = if self.thumbsize is Some {
            p3.push(("thumbsize"@, self.thumbsize->0.label()))
        } else {
            p3
        };
        let p5 = if self.stars is Some {
            p4.push(("stars"@, join_cm((self.stars->0)@.map_values(|t: String| t@))))
        } else {
            p4
        };
        let p6 = if self.ordering is Some {
            p5.push(("ordering"@, self.ordering->0.label()))
        } else {
            p5
        };
        if self.period is Some {
            p6.push(("period"@, self.period->0.label()))
        } else {
            p6
        }
    }

    /// Builds the query parameter list for this request.
    pub fn query_params(&self) -> (r: Vec<(String, String)>)
        ensures
            r@.map_values(|p: (String, String)| (p.0@, p.1@)) == self.params(),
    {
        let ghost f = |p: (String, String)| (p.0@, p.1@);
        let mut out: Vec<(String, String)> = Vec::new();
        proof {
            assert(out@.map_values(f) =~= Seq::<(Seq<char>, Seq<char>)>::empty());
        }
        if let Some(page) = &self.page {
            let mut digits: Vec<char> = Vec::new();
            crate::codec::encode_u64(*page as u64, &mut digits);
            let ghost before = out@.map_values(f);
            out.push(("page".to_owned(), chars_to_string(digits)));
            proof {
                assert((*page as u64) as nat == *page as nat);
                assert(out@.map_values(f) =~= before.push(("page"@, dec_of(*page as nat))));
            }
        }
        if let Some(search) = &self.search {
            let ghost before = out@.map_values(f);
            out.push(("search".to_owned(), search.clone()));
            proof {
                assert(out@.map_values(f) =~= before.push(("search"@, search@)));
            }
        }
        if let Some(tags) = &self.tags {
            let ghost before = out@.map_values(f);
            out.push(("tags".to_owned(), join_commas(tags)));
            proof {
                assert(out@.map_values(f) =~= before.push(
                    ("tags"@, join_cm(tags@.map_values(|t: String| t@))),
                ));
            }
        }
        if let Some(thumbsize) = &self.thumbsize {
            let ghost before = out@.map_values(f);
            out.push(("thumbsize".to_owned(), thumbsize.as_str().to_owned()));
            proof {
                assert(out@.map_values(f) =~= before.push(("thumbsize"@, thumbsize.label())));
            }
        }
        if let Some(stars) = &self.stars {
            let ghost before = out@.map_values(f);
            out.push(("stars".to_owned(), join_commas(stars)));
            proof {
                assert(out@.map_values(f) =~= before.push(
                    ("stars"@, join_cm(stars@.map_values(|t: String| t@))),
                ));
            }
        }
        if let Some(ordering) = &self.ordering {
            let ghost before = out@.map_values(f);
            out.push(("ordering".to_owned(), ordering.as_str().to_owned()));
            proof {
                assert(out@.map_values(f) =~= before.push(("ordering"@, ordering.label())));
            }
        }
        if let Some(period) = &self.period {
            let ghost before = out@.map_values(f);
            out.push(("period".to_owned(), period.as_str().to_owned()));
            proof {
                assert(out@.map_values(f) =~= before.push(("period"@, period.label())));
            }
        }
        out
    }

    /// Sets the search term, leaving every other field as it is.
    pub fn search(self, term: &str) -> (r: Self)
        ensures
            r.search matches Some(s) && s@ == term@,
            r.category == self.category,
            r.page == self.page,
            r.tags == self.tags,
            r.stars == self.stars,
            r.ordering == self.ordering,
            r.thumbsize == self.thumbsize,
            r.period == self.period,
    {
        Self { search: Some(term.to_owned()), ..self }
    }
}

} // verus!
