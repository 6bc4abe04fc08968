//! A named column of display strings with its display width.

use vstd::prelude::*;
use crate::decimal::Dec;
use crate::format::{cents_of, cents_text, dec_to_str};

verus! {

/// The larger of `w` and the length of every string of `data`.
pub open spec fn widest(w: nat, data: Seq<Seq<char>>) -> nat
    decreases data.len(),
{
    if data.len() == 0 {
        w
    } else {
        let m = widest(w, data.drop_last());
        if data.last().len() > m {
            data.last().len()
        } else {
            m
        }
    }
}

proof fn lemma_widest_ge(w: nat, data: Seq<Seq<char>>)
    ensures
        w <= widest(w, data),
        forall|i: int| 0 <= i < data.len() ==> (#[trigger] data[i]).len() <= widest(w, data),
    decreases data.len(),
{
    if data.len() > 0 {
        let d = data.drop_last();
        lemma_widest_ge(w, d);
        assert forall|i: int| 0 <= i < data.len() implies (#[trigger] data[i]).len() <= widest(w, data) by {
            if i < d.len() {
                assert(data[i] == d[i]);
            }
        }
    }
}

/// A header, its rows, and the width that fits them all.
pub struct Column {
    name: String,
    data: Vec<String>,
    width: usize,
}

impl Column {
    /// The header.
    pub closed spec fn header(&self) -> Seq<char> {
        self.name@
    }

    /// The rows, in order.
    pub closed spec fn rows(&self) -> Seq<Seq<char>> {
        self.data@.map_values(|s: String| s@)
    }

    /// The display width.
    pub closed spec fn spec_width(&self) -> nat {
        self.width as nat
    }

    /// The width is exactly the largest of the header's and the rows' lengths.
    pub closed spec fn wf(&self) -> bool {
        self.width as nat == widest(self.name@.len(), self.data@.map_values(|s: String| s@))
    }

    /// In a well-formed column, the header and every row fit the width.
    pub proof fn lemma_fits(&self)
        requires
            self.wf(),
        ensures
            self.header().len() <= self.spec_width(),
            forall|i: int| 0 <= i < self.rows().len() ==> (#[trigger] self.rows()[i]).len() <= self.spec_width(),
    {
        lemma_widest_ge(self.name@.len(), self.data@.map_values(|s: String| s@));
    }

    /// A column of the given rows; its width is the largest of the header's
    /// length and the rows' lengths.
    pub fn from_strings(name: &str, data: Vec<String>) -> (r: Column)
        ensures
            r.header() == name@,
            r.rows() == data@.map_values(|s: String| s@),
            r.spec_width() == widest(name@.len(), data@.map_values(|s: String| s@)),
            r.wf(),
    {
        let ghost rows = data@.map_values(|s: String| s@);
        let mut width = name.unicode_len();
        let mut i: usize = 0;
        while i < data.len()
            invariant
                i <= data@.len(),
                rows == data@.map_values(|s: String| s@),
                width as nat == widest(name@.len(), rows.take(i as int)),
            decreases data@.len() - i,
        {
            let n = data[i].as_str().unicode_len();
            assert(rows.take(i as int + 1).drop_last() =~= rows.take(i as int));
            assert(rows.take(i as int + 1).last() == data@[i as int]@);
            if n > width {
                width = n;
            }
            i = i + 1;
        }
        assert(rows.take(i as int) =~= rows);
        Column { name: name.to_owned(), data, width }
    }

    /// A column of the values as formatted text; `None` when a value is too
    /// large to format.
    pub fn from_decimals(name: &str, data: &[Dec]) -> (r: Option<Column>)
        requires
            forall|i: int| 0 <= i < data@.len() ==> (#[trigger] data@[i]).wf(),
        ensures
            r is Some <==> forall|i: int| 0 <= i < data@.len() ==> cents_of(#[trigger] data@[i]) <= u64::MAX,
            r matches Some(c) ==> {
                &&& c.header() == name@
                &&& c.rows().len() == data@.len()
                &&& forall|i: int|
                    0 <= i < data@.len() ==> #[trigger] c.rows()[i] == cents_text(
                        data@[i].mantissa < 0,
                        cents_of(data@[i]) as nat,
                    )
                &&& c.spec_width() == widest(name@.len(), c.rows())
                &&& c.wf()
            },
    {
        let mut out: Vec<String> = Vec::new();
        let mut i: usize = 0;
        while i < data.len()
            invariant
                forall|i: int| 0 <= i < data@.len() ==> (#[trigger] data@[i]).wf(),
                i <= data@.len(),
                out@.len() == i,
                forall|j: int| 0 <= j < i ==> cents_of(#[trigger] data@[j]) <= u64::MAX,
                forall|j: int|
                    0 <= j < i ==> #[trigger] out@[j]@ == cents_text(
                        data@[j].mantissa < 0,
                        cents_of(data@[j]) as nat,
                    ),
            decreases data@.len() - i,
        {
            match dec_to_str(data[i]) {
                Some(s) => {
                    out.push(s);
                },
                None => {
                    return None;
                },
            }
            i = i + 1;
        }
        Some(Column::from_strings(name, out))
    }

    /// The header.
    pub fn name(&self) -> (r: &str)
        ensures
            r@ == self.header(),
    {
        self.name.as_str()
    }

    /// The rows, in order.
    pub fn data(&self) -> (r: &[String])
        ensures
            r@.map_values(|s: String| s@) == self.rows(),
    {
        self.data.as_slice()
    }

    /// The display width.
    pub fn width(&self) -> (r: usize)
        ensures
            r as nat == self.spec_width(),
    {
        self.width
    }
}

} // verus!
