//! Label tables: ordered, named, deduplicated tables of integer tuples.
//!
//! A [`Labels`] table is the indexing substrate for every axis of every
//! block: keys, samples, components and properties. Each row is an integer
//! tuple with one value per named column; rows are unique, and so are the
//! column names.

use vstd::prelude::*;
use vstd::string::StringExecFns;
use crate::error::Error;
use crate::strings::{dec_digits, dec_int, join_with, join_comma, usize_string, i64_string};

verus! {

/// No two elements of `s` are equal.
pub open spec fn all_distinct<T>(s: Seq<T>) -> bool {
    forall|i: int, j: int| 0 <= i < s.len() && 0 <= j < s.len() && i != j ==> s[i] != s[j]
}

/// Some element of `s` before position `i` equals `s[i]`.
pub open spec fn repeats_earlier<T>(s: Seq<T>, i: int) -> bool {
    exists|j: int| 0 <= j < i && s[j] == s[i]
}

/// First index of `target` in `names`, or -1 when absent.
pub open spec fn find_name(names: Seq<Seq<char>>, target: Seq<char>) -> int
    decreases names.len(),
{
    if names.len() == 0 {
        -1
    } else if names[0] == target {
        0
    } else if find_name(names.drop_first(), target) < 0 {
        -1
    } else {
        find_name(names.drop_first(), target) + 1
    }
}

pub proof fn lemma_find_name(names: Seq<Seq<char>>, target: Seq<char>)
    ensures
        find_name(names, target) >= 0 ==> find_name(names, target) < names.len()
            && names[find_name(names, target)] == target,
        find_name(names, target) < 0 ==> forall|i: int|
            0 <= i < names.len() ==> names[i] != target,
        find_name(names, target) >= 0 ==> forall|i: int|
            0 <= i < find_name(names, target) ==> names[i] != target,
    decreases names.len(),
{
    if names.len() > 0 {
        lemma_find_name(names.drop_first(), target);
        assert forall|i: int| 1 <= i < names.len() implies names.drop_first()[i - 1]
            == names[i] by {}
    }
}

/// The row rendered as its decimal values joined by `", "`.
pub open spec fn row_text(row: Seq<i32>) -> Seq<char> {
    join_with(Seq::new(row.len(), |j: int| dec_int(row[j] as int)), ", "@)
}

/// Message for a name passed twice to a labels builder.
pub open spec fn msg_duplicate_name(name: Seq<char>) -> Seq<char> {
    "labels names must be unique, got '"@ + name + "' twice"@
}

/// Message for an appended row whose arity does not match the names.
pub open spec fn msg_entry_size(expected: int, got: int) -> Seq<char> {
    "invalid size for the new entry: expected "@ + dec_digits(expected) + " values, got "@
        + dec_digits(got)
}

/// Message for an appended row equal to an existing one.
pub open spec fn msg_duplicate_entry(row: Seq<i32>) -> Seq<char> {
    "duplicate entry ["@ + row_text(row) + "] in labels"@
}

/// An ordered, named, deduplicated table of integer-tuple entries.
///
/// Built once through [`LabelsBuilder`], then immutable.
#[derive(Debug, Clone)]
pub struct Labels {
    names: Vec<String>,
    entries: Vec<Vec<i32>>,
}

impl Labels {
    /// The column names, as sequences of characters.
    pub closed spec fn names_v(&self) -> Seq<Seq<char>> {
        self.names.deep_view()
    }

    /// The rows, as sequences of mathematical integers.
    pub closed spec fn rows_v(&self) -> Seq<Seq<i32>> {
        self.entries.deep_view()
    }

    /// Number of columns.
    pub open spec fn size_v(&self) -> int {
        self.names_v().len() as int
    }

    /// Number of rows.
    pub open spec fn count_v(&self) -> int {
        self.rows_v().len() as int
    }

    /// Well-formedness: unique names, unique rows, all rows of arity
    /// `size_v()`.
    pub open spec fn wf(&self) -> bool {
        &&& forall|i: int|
            0 <= i < self.count_v() ==> (#[trigger] self.rows_v()[i]).len() == self.size_v()
        &&& all_distinct(self.rows_v())
        &&& all_distinct(self.names_v())
    }

    /// The column names of this table.
    pub fn names(&self) -> (r: &Vec<String>)
        ensures
            r.deep_view() == self.names_v(),
    {
        &self.names
    }

    /// The name of column `j`.
    pub fn name(&self, j: usize) -> (r: &String)
        requires
            j < self.size_v(),
        ensures
            r@ == self.names_v()[j as int],
    {
        &self.names[j]
    }

    /// Number of columns.
    pub fn size(&self) -> (r: usize)
        ensures
            r == self.size_v(),
    {
        self.names.len()
    }

    /// Number of rows.
    pub fn count(&self) -> (r: usize)
        ensures
            r == self.count_v(),
    {
        self.entries.len()
    }

    /// The row at position `i`.
    pub fn entry(&self, i: usize) -> (r: &Vec<i32>)
        requires
            i < self.count_v(),
        ensures
            r.deep_view() == self.rows_v()[i as int],
    {
        &self.entries[i]
    }

    /// Build a table directly from validated parts.
    pub(crate) fn from_parts(names: Vec<String>, entries: Vec<Vec<i32>>) -> (r: Labels)
        requires
            all_distinct(names.deep_view()),
            all_distinct(entries.deep_view()),
            forall|i: int|
                0 <= i < entries.deep_view().len() ==> (#[trigger] entries.deep_view()[i]).len()
                    == names.deep_view().len(),
        ensures
            r.wf(),
            r.names_v() == names.deep_view(),
            r.rows_v() == entries.deep_view(),
    {
        Labels { names, entries }
    }
}

/// Compare two rows for equality.
pub fn rows_equal(a: &Vec<i32>, b: &Vec<i32>) -> (r: bool)
    ensures
        r <==> a.deep_view() == b.deep_view(),
{
    if a.len() != b.len() {
        proof {
            assert(a.deep_view().len() != b.deep_view().len());
        }
        return false;
    }
    let mut i: usize = 0;
    while i < a.len()
        invariant
            i <= a.len(),
            a.len() == b.len(),
            forall|k: int| 0 <= k < i ==> a.deep_view()[k] == b.deep_view()[k],
        decreases a.len() - i,
    {
        if a[i] != b[i] {
            proof {
                assert(a.deep_view()[i as int] != b.deep_view()[i as int]);
            }
            return false;
        }
        i = i + 1;
    }
    proof {
        assert(a.deep_view() =~= b.deep_view());
    }
    true
}

/// Compare two lists of names for equality.
pub fn names_equal(a: &Vec<String>, b: &Vec<String>) -> (r: bool)
    ensures
        r <==> a.deep_view() == b.deep_view(),
{
    if a.len() != b.len() {
        proof {
            assert(a.deep_view().len() != b.deep_view().len());
        }
        return false;
    }
    let mut i: usize = 0;
    while i < a.len()
        invariant
            i <= a.len(),
            a.len() == b.len(),
            forall|k: int| 0 <= k < i ==> a.deep_view()[k] == b.deep_view()[k],
        decreases a.len() - i,
    {
        if !(a[i] == b[i]) {
            proof {
                assert(a.deep_view()[i as int] != b.deep_view()[i as int]);
            }
            return false;
        }
        i = i + 1;
    }
    proof {
        assert(a.deep_view() =~= b.deep_view());
    }
    true
}

/// Render a row as its decimal values joined by `", "`.
pub fn row_string(row: &Vec<i32>) -> (s: String)
    ensures
        s@ == row_text(row.deep_view()),
{
    let mut parts: Vec<String> = Vec::new();
    let ghost target = Seq::new(row.deep_view().len(), |j: int| dec_int(row.deep_view()[j] as int));
    let mut i: usize = 0;
    while i < row.len()
        invariant
            i <= row.len(),
            target == Seq::new(row.deep_view().len(), |j: int| dec_int(row.deep_view()[j] as int)),
            target.len() == row@.len(),
            parts@.len() == i,
            forall|k: int| 0 <= k < i ==> parts@[k]@ == target[k],
        decreases row.len() - i,
    {
        let value = row[i];
        parts.push(i64_string(value as i64));
        proof {
            assert(parts@[i as int]@ == dec_int(row@[i as int] as int));
        }
        i = i + 1;
    }
    proof {
        assert(parts.deep_view() =~= target);
    }
    join_comma(&parts)
}

/// Structural equality of two label tables: same names, same rows.
pub open spec fn labels_sim(a: Labels, b: Labels) -> bool {
    a.names_v() == b.names_v() && a.rows_v() == b.rows_v()
}

/// Compare two label tables structurally.
pub fn labels_equal(a: &Labels, b: &Labels) -> (r: bool)
    ensures
        r <==> labels_sim(*a, *b),
{
    if !names_equal(a.names(), b.names()) {
        return false;
    }
    if a.count() != b.count() {
        proof {
            assert(a.rows_v().len() != b.rows_v().len());
        }
        return false;
    }
    let n = a.count();
    let mut i: usize = 0;
    while i < n
        invariant
            i <= n,
            n == a.count_v(),
            n == b.count_v(),
            forall|k: int| 0 <= k < i ==> a.rows_v()[k] == b.rows_v()[k],
        decreases n - i,
    {
        if !rows_equal(a.entry(i), b.entry(i)) {
            return false;
        }
        i = i + 1;
    }
    proof {
        assert(a.rows_v() =~= b.rows_v());
    }
    true
}

/// An append-only builder for [`Labels`].
#[derive(Debug, Clone)]
pub struct LabelsBuilder {
    names: Vec<String>,
    entries: Vec<Vec<i32>>,
}

impl LabelsBuilder {
    /// The column names, as sequences of characters.
    pub closed spec fn names_v(&self) -> Seq<Seq<char>> {
        self.names.deep_view()
    }

    /// The rows appended so far.
    pub closed spec fn rows_v(&self) -> Seq<Seq<i32>> {
        self.entries.deep_view()
    }

    /// Well-formedness, matching [`Labels::wf`].
    pub open spec fn wf(&self) -> bool {
        &&& forall|i: int|
            0 <= i < self.rows_v().len() ==> (#[trigger] self.rows_v()[i]).len()
                == self.names_v().len()
        &&& all_distinct(self.rows_v())
        &&& all_distinct(self.names_v())
    }

    /// Start a builder with the given column names.
    ///
    /// Fails when a name appears twice, naming the repeated name.
    pub fn new(names: Vec<String>) -> (r: Result<LabelsBuilder, Error>)
        ensures
            (r is Ok) <==> all_distinct(names.deep_view()),
            r matches Ok(b) ==> b.wf() && b.names_v() == names.deep_view() && b.rows_v()
                == Seq::<Seq<i32>>::empty(),
            r matches Err(e) ==> exists|i: int|
                0 <= i < names.deep_view().len() && repeats_earlier(names.deep_view(), i)
                    && e.text() == msg_duplicate_name(names.deep_view()[i]),
    {
        let ghost nv = names.deep_view();
        let mut i: usize = 1;
        while i < names.len()
            invariant
                1 <= i,
                i <= names.len() || i == 1,
                nv == names.deep_view(),
                forall|k: int| 0 <= k < i && k < nv.len() ==> !repeats_earlier(nv, k),
            decreases names.len() - i,
        {
            let mut j: usize = 0;
            while j < i
                invariant
                    j <= i,
                    i < names.len(),
                    nv == names.deep_view(),
                    forall|k: int| 0 <= k < j ==> nv[k] != nv[i as int],
                decreases i - j,
            {
                if names[j] == names[i] {
                    let mut m = String::from_str("labels names must be unique, got '");
                    m.append(names[i].as_str());
                    m.append("' twice");
                    proof {
                        assert(m@ =~= msg_duplicate_name(nv[i as int]));
                        assert(nv[j as int] == names@[j as int]@);
                        assert(nv[i as int] == names@[i as int]@);
                        assert(nv[j as int] == nv[i as int]);
                        assert(repeats_earlier(nv, i as int));
                        assert(!all_distinct(nv));
                    }
                    return Err(Error::invalid_parameter(m));
                }
                j = j + 1;
            }
            proof {
                assert(!repeats_earlier(nv, i as int));
            }
            i = i + 1;
        }
        proof {
            assert forall|a: int, b: int|
                0 <= a < nv.len() && 0 <= b < nv.len() && a != b implies nv[a] != nv[b] by {
                if a < b {
                    assert(!repeats_earlier(nv, b));
                } else {
                    assert(!repeats_earlier(nv, a));
                }
            }
        }
        let entries: Vec<Vec<i32>> = Vec::new();
        proof {
            assert(entries.deep_view() =~= Seq::<Seq<i32>>::empty());
        }
        Ok(LabelsBuilder { names, entries })
    }

    /// Append one row.
    ///
    /// Fails when the row's arity differs from the number of names, or when
    /// the row equals an existing one; the builder is left unchanged then.
    pub fn add(&mut self, entry: Vec<i32>) -> (r: Result<(), Error>)
        requires
            old(self).wf(),
        ensures
            final(self).wf(),
            final(self).names_v() == old(self).names_v(),
            (r is Ok) <==> (entry.deep_view().len() == old(self).names_v().len()
                && forall|i: int|
                    0 <= i < old(self).rows_v().len() ==> old(self).rows_v()[i]
                        != entry.deep_view()),
            r is Ok ==> final(self).rows_v() == old(self).rows_v().push(entry.deep_view()),
            r is Err ==> final(self).rows_v() == old(self).rows_v(),
            r matches Err(e) ==> e.text() == (if entry.deep_view().len()
                != old(self).names_v().len() {
                msg_entry_size(old(self).names_v().len() as int, entry.deep_view().len() as int)
            } else {
                msg_duplicate_entry(entry.deep_view())
            }),
    {
        if entry.len() != self.names.len() {
            let mut m = String::from_str("invalid size for the new entry: expected ");
            let expected = usize_string(self.names.len());
            m.append(expected.as_str());
            m.append(" values, got ");
            let got = usize_string(entry.len());
            m.append(got.as_str());
            proof {
                assert(m@ =~= msg_entry_size(
                    self.names_v().len() as int,
                    entry.deep_view().len() as int,
                ));
            }
            return Err(Error::invalid_parameter(m));
        }
        let mut i: usize = 0;
        while i < self.entries.len()
            invariant
                i <= self.entries.len(),
                old(self).wf(),
                self.names_v() == old(self).names_v(),
                self.rows_v() == old(self).rows_v(),
                entry.deep_view().len() == old(self).names_v().len(),
                forall|k: int| 0 <= k < i ==> self.rows_v()[k] != entry.deep_view(),
            decreases self.entries.len() - i,
        {
            if rows_equal(&self.entries[i], &entry) {
                let mut m = String::from_str("duplicate entry [");
                let row = row_string(&entry);
                m.append(row.as_str());
                m.append("] in labels");
                proof {
                    assert(m@ =~= msg_duplicate_entry(entry.deep_view()));
                    assert(self.rows_v()[i as int] == entry.deep_view());
                }
                return Err(Error::invalid_parameter(m));
            }
            i = i + 1;
        }
        self.entries.push(entry);
        proof {
            assert(self.rows_v() =~= old(self).rows_v().push(entry.deep_view()));
        }
        Ok(())
    }

    /// Freeze the builder into an immutable table.
    pub fn finish(self) -> (r: Labels)
        requires
            self.wf(),
        ensures
            r.wf(),
            r.names_v() == self.names_v(),
            r.rows_v() == self.rows_v(),
    {
        Labels { names: self.names, entries: self.entries }
    }
}


/// Copy a row of values.
pub fn copy_row(row: &Vec<i32>) -> (r: Vec<i32>)
    ensures
        r@ == row@,
{
    let mut r: Vec<i32> = Vec::new();
    let mut i: usize = 0;
    while i < row.len()
        invariant
            i <= row@.len(),
            r@ == row@.take(i as int),
        decreases row@.len() - i,
    {
        r.push(row[i]);
        proof {
            assert(r@ =~= row@.take(i as int + 1));
        }
        i = i + 1;
    }
    proof {
        assert(row@.take(row@.len() as int) =~= row@);
    }
    r
}

/// Copy a list of names.
pub fn copy_names(names: &Vec<String>) -> (r: Vec<String>)
    ensures
        r.deep_view() == names.deep_view(),
        r@.len() == names@.len(),
{
    let mut r: Vec<String> = Vec::new();
    let mut i: usize = 0;
    while i < names.len()
        invariant
            i <= names@.len(),
            r@.len() == i,
            forall|k: int| 0 <= k < i ==> r@[k] == names@[k],
        decreases names@.len() - i,
    {
        r.push(names[i].clone());
        i = i + 1;
    }
    proof {
        assert(r.deep_view() =~= names.deep_view());
    }
    r
}

/// Copy a label table.
pub fn duplicate_labels(l: &Labels) -> (r: Labels)
    requires
        l.wf(),
    ensures
        r.wf(),
        labels_sim(r, *l),
{
    let names = copy_names(l.names());
    let mut entries: Vec<Vec<i32>> = Vec::new();
    let n = l.count();
    let mut i: usize = 0;
    while i < n
        invariant
            i <= n,
            n == l.count_v(),
            l.wf(),
            entries.deep_view().len() == i,
            forall|k: int| 0 <= k < i ==> entries.deep_view()[k] == l.rows_v()[k],
        decreases n - i,
    {
        entries.push(copy_row(l.entry(i)));
        i = i + 1;
    }
    proof {
        assert(entries.deep_view() =~= l.rows_v());
    }
    Labels::from_parts(names, entries)
}

/// Concatenate two rows of values.
pub fn concat_rows(a: &Vec<i32>, b: &Vec<i32>) -> (r: Vec<i32>)
    ensures
        r.deep_view() == a.deep_view() + b.deep_view(),
{
    let mut r: Vec<i32> = Vec::new();
    let mut i: usize = 0;
    while i < a.len()
        invariant
            i <= a@.len(),
            r@ == a@.take(i as int),
        decreases a@.len() - i,
    {
        r.push(a[i]);
        proof {
            assert(r@ =~= a@.take(i as int + 1));
        }
        i = i + 1;
    }
    proof {
        assert(a@.take(a@.len() as int) =~= a@);
    }
    let mut j: usize = 0;
    while j < b.len()
        invariant
            j <= b@.len(),
            r@ == a@ + b@.take(j as int),
        decreases b@.len() - j,
    {
        r.push(b[j]);
        proof {
            assert(r@ =~= a@ + b@.take(j as int + 1));
        }
        j = j + 1;
    }
    proof {
        assert(a@ + b@.take(b@.len() as int) =~= a@ + b@);
        assert(r.deep_view() =~= a.deep_view() + b.deep_view());
    }
    r
}

/// Two concatenations of rows with equally long heads are equal only part
/// by part.
pub proof fn lemma_concat_parts(a1: Seq<i32>, b1: Seq<i32>, a2: Seq<i32>, b2: Seq<i32>)
    requires
        a1.len() == a2.len(),
        a1 + b1 == a2 + b2,
    ensures
        a1 == a2,
        b1 == b2,
{
    assert((a1 + b1).subrange(0, a1.len() as int) =~= a1);
    assert((a2 + b2).subrange(0, a2.len() as int) =~= a2);
    assert((a1 + b1).len() == (a2 + b2).len());
    assert((a1 + b1).subrange(a1.len() as int, (a1 + b1).len() as int) =~= b1);
    assert((a2 + b2).subrange(a2.len() as int, (a2 + b2).len() as int) =~= b2);
}

} // verus!
