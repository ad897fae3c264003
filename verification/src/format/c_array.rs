//! Arrays of the target language as text: the items in lines of four, the
//! lines between braces.

use vstd::prelude::*;
use vstd::string::*;
use crate::chunks::{chunk_views, chunked, chunks_of};
use crate::text::{concat2, decimal, decimal_string, join, join_strings, views};
use crate::types::errors::{Error, ErrorView};

verus! {

/// The text of a header file and of the body file that goes with it.
#[derive(Debug, PartialEq, Eq)]
pub struct Format {
    pub h: String,
    pub c: String,
}

/// A `Format` as a mathematical value.
pub struct FormatView {
    pub h: Seq<char>,
    pub c: Seq<char>,
}

impl View for Format {
    type V = FormatView;

    open spec fn view(&self) -> FormatView {
        FormatView { h: self.h@, c: self.c@ }
    }
}

impl Format {
    /// Two empty texts.
    pub fn new() -> (f: Format)
        ensures
            f@ == (FormatView { h: Seq::empty(), c: Seq::empty() }),
    {
        Format { h: String::new(), c: String::new() }
    }

    /// Writes `other` after what is there, header after header and body
    /// after body.
    pub fn append(&mut self, other: &Format)
        ensures
            final(self)@ == (FormatView { h: old(self)@.h + other@.h, c: old(self)@.c + other@.c }),
    {
        self.h.append(other.h.as_str());
        self.c.append(other.c.as_str());
    }
}

/// The number of items in a line of an array.
pub const ITEMS_PER_LINE: usize = 4;

/// One line of an array: the items, each followed by a comma and a space.
pub open spec fn line_of(items: Seq<Seq<char>>) -> Seq<char> {
    join(items, ", "@) + ", "@
}

/// The lines of an array: four items to a line, the last line with what is
/// left.
pub open spec fn spec_to_string_vec(items: Seq<Seq<char>>) -> Seq<Seq<char>> {
    chunked(items, 4).map_values(|chunk: Seq<Seq<char>>| line_of(chunk))
}

/// `lines`, each after one space, between a line with an opening brace and
/// a line with a closing brace.
pub open spec fn spec_wrap_in_braces(lines: Seq<Seq<char>>) -> Seq<Seq<char>> {
    seq!["{"@] + lines.map_values(|l: Seq<char>| " "@ + l) + seq!["}"@]
}

/// The initialiser of an array of `items`.
pub open spec fn spec_make_c_array(items: Seq<Seq<char>>) -> Seq<char> {
    join(spec_wrap_in_braces(spec_to_string_vec(items)), "\n"@)
}

/// The lines of the rows of a two-dimensional array, each row between its
/// own braces.
pub open spec fn rows_lines(rows: Seq<Seq<Seq<char>>>) -> Seq<Seq<char>>
    decreases rows.len(),
{
    if rows.len() == 0 {
        Seq::empty()
    } else {
        rows_lines(rows.drop_last()) + spec_wrap_in_braces(spec_to_string_vec(rows.last()))
    }
}

/// The initialiser of a two-dimensional array of `rows`.
pub open spec fn spec_make_c_array2(rows: Seq<Seq<Seq<char>>>) -> Seq<char> {
    join(spec_wrap_in_braces(rows_lines(rows)), "\n"@)
}

/// There is a row, and all rows are as long as the first.
pub open spec fn spec_is_rectangular(rows: Seq<Seq<Seq<char>>>) -> bool {
    rows.len() > 0 && forall|i: int| 0 <= i < rows.len() ==> (#[trigger] rows[i]).len() == rows[0].len()
}

/// The views of the rows of a two-dimensional array.
pub open spec fn row_views(rows: Seq<Vec<String>>) -> Seq<Seq<Seq<char>>> {
    rows.map_values(|r: Vec<String>| views(r@))
}

/// `const`, the type, the name and `suffix`, after `extern` if `is_extern`.
pub open spec fn declarator(name: Seq<char>, ctype: Seq<char>, suffix: Seq<char>, is_extern: bool) -> Seq<
    char,
> {
    (if is_extern {
        "extern const "@
    } else {
        "const "@
    }) + ctype + " "@ + name + suffix
}

/// The declaration and the definition of an array with the brackets
/// `suffix` and the initialiser `contents`. An array that is not `extern`
/// has no declaration.
pub open spec fn spec_format_array(
    name: Seq<char>,
    ctype: Seq<char>,
    suffix: Seq<char>,
    contents: Seq<char>,
    is_extern: bool,
) -> FormatView {
    FormatView {
        h: if is_extern {
            declarator(name, ctype, suffix, true) + ";\n"@
        } else {
            Seq::empty()
        },
        c: declarator(name, ctype, suffix, is_extern) + " = "@ + contents + ";\n\n"@,
    }
}

/// The declaration and the definition of a one-dimensional array.
pub open spec fn spec_format_c_array(
    name: Seq<char>,
    items: Seq<Seq<char>>,
    ctype: Seq<char>,
    is_extern: bool,
) -> FormatView {
    spec_format_array(name, ctype, "[]"@, spec_make_c_array(items), is_extern)
}

/// The declaration and the definition of a two-dimensional array, whose
/// second dimension is the length of its first row.
pub open spec fn spec_format_c_array2(
    name: Seq<char>,
    rows: Seq<Seq<Seq<char>>>,
    ctype: Seq<char>,
    is_extern: bool,
) -> FormatView {
    spec_format_array(
        name,
        ctype,
        "[]["@ + decimal(rows[0].len()) + "]"@,
        spec_make_c_array2(rows),
        is_extern,
    )
}

/// The lines of an array of `v`.
pub fn to_string_vec(v: &Vec<String>) -> (lines: Vec<String>)
    ensures
        views(lines@) == spec_to_string_vec(views(v@)),
{
    let mut items: Vec<String> = Vec::new();
    let mut i: usize = 0;
    while i < v.len()
        invariant
            i <= v.len(),
            items.len() == i,
            forall|j: int| 0 <= j < i ==> items[j]@ == v[j]@,
        decreases v.len() - i,
    {
        items.push(v[i].clone());
        i += 1;
    }
    let ghost copied = items@;
    let chunks = chunks_of(items, ITEMS_PER_LINE);
    let ghost want = chunked(views(v@), 4);
    assert(chunks.len() == chunk_views(chunks@).len());
    assert(chunks.len() == want.len());
    let mut lines: Vec<String> = Vec::new();
    let mut k: usize = 0;
    while k < chunks.len()
        invariant
            k <= chunks.len(),
            chunks.len() == want.len(),
            want == chunked(views(v@), 4),
            chunk_views(chunks@) == chunked(copied, 4),
            copied.len() == v.len(),
            forall|j: int| 0 <= j < copied.len() ==> copied[j]@ == v[j]@,
            lines.len() == k,
            forall|j: int| 0 <= j < k ==> lines[j]@ == line_of(want[j]),
        decreases chunks.len() - k,
    {
        let mut line = join_strings(&chunks[k], ", ");
        line.append(", ");
        proof {
            assert(chunk_views(chunks@)[k as int] == chunks[k as int]@);
            assert(views(chunks[k as int]@) =~= want[k as int]);
        }
        lines.push(line);
        k += 1;
    }
    assert(views(lines@) =~= spec_to_string_vec(views(v@)));
    lines
}

/// `lines` between braces.
pub fn wrap_in_braces(lines: &Vec<String>) -> (wrapped: Vec<String>)
    ensures
        views(wrapped@) == spec_wrap_in_braces(views(lines@)),
{
    let mut wrapped: Vec<String> = Vec::new();
    wrapped.push("{".to_owned());
    let mut i: usize = 0;
    while i < lines.len()
        invariant
            i <= lines.len(),
            wrapped.len() == i + 1,
            wrapped[0]@ == "{"@,
            forall|j: int| 0 <= j < i ==> wrapped[j + 1]@ == " "@ + lines[j]@,
        decreases lines.len() - i,
    {
        wrapped.push(concat2(" ", lines[i].as_str()));
        i += 1;
    }
    wrapped.push("}".to_owned());
    assert(views(wrapped@) =~= spec_wrap_in_braces(views(lines@)));
    wrapped
}

/// The initialiser of an array of `v`.
pub fn make_c_array(v: &Vec<String>) -> (text: String)
    ensures
        text@ == spec_make_c_array(views(v@)),
{
    let lines = wrap_in_braces(&to_string_vec(v));
    join_strings(&lines, "\n")
}

/// Whether `v` has a row and all its rows are as long as the first.
pub fn is_rectangular(v: &Vec<Vec<String>>) -> (yes: bool)
    ensures
        yes == spec_is_rectangular(row_views(v@)),
{
    if v.len() == 0 {
        return false;
    }
    let len_2nd_dim = v[0].len();
    let mut i: usize = 0;
    while i < v.len()
        invariant
            i <= v.len(),
            v.len() > 0,
            len_2nd_dim == v[0].len(),
            forall|j: int| 0 <= j < i ==> (#[trigger] row_views(v@)[j]).len() == row_views(v@)[0].len(),
        decreases v.len() - i,
    {
        if v[i].len() != len_2nd_dim {
            assert(row_views(v@)[i as int].len() != row_views(v@)[0].len());
            return false;
        }
        i += 1;
    }
    true
}

/// The initialiser of a two-dimensional array of the rows `v`.
pub fn make_c_array2(v: &Vec<Vec<String>>) -> (text: String)
    requires
        spec_is_rectangular(row_views(v@)),
    ensures
        text@ == spec_make_c_array2(row_views(v@)),
{
    let mut rows: Vec<String> = Vec::new();
    let mut i: usize = 0;
    while i < v.len()
        invariant
            i <= v.len(),
            views(rows@) == rows_lines(row_views(v@).take(i as int)),
        decreases v.len() - i,
    {
        let mut more = wrap_in_braces(&to_string_vec(&v[i]));
        let ghost before = rows@;
        let ghost added = more@;
        rows.append(&mut more);
        proof {
            let r = row_views(v@);
            assert(r.take(i + 1).drop_last() == r.take(i as int));
            assert(r.take(i + 1).last() == views(v[i as int]@));
            assert(views(rows@) =~= views(before) + views(added));
        }
        i += 1;
    }
    assert(row_views(v@).take(i as int) == row_views(v@));
    join_strings(&wrap_in_braces(&rows), "\n")
}

/// The declaration and the definition of an array with the brackets
/// `suffix` and the initialiser `contents`.
fn format_array(name: &str, ctype: &str, suffix: &str, contents: &str, is_extern: bool) -> (f: Format)
    ensures
        f@ == spec_format_array(name@, ctype@, suffix@, contents@, is_extern),
{
    let mut decl = if is_extern {
        "extern const ".to_owned()
    } else {
        "const ".to_owned()
    };
    decl.append(ctype);
    decl.append(" ");
    decl.append(name);
    decl.append(suffix);
    let h = if is_extern {
        concat2(decl.as_str(), ";\n")
    } else {
        String::new()
    };
    let mut c = decl;
    c.append(" = ");
    c.append(contents);
    c.append(";\n\n");
    Format { h, c }
}

/// The declaration and the definition of the one-dimensional array `name`
/// of type `ctype` that holds `v`.
pub fn format_c_array(name: &str, v: &Vec<String>, ctype: &str, is_extern: bool) -> (f: Format)
    ensures
        f@ == spec_format_c_array(name@, views(v@), ctype@, is_extern),
{
    let contents = make_c_array(v);
    format_array(name, ctype, "[]", contents.as_str(), is_extern)
}

/// The declaration and the definition of the two-dimensional array `name`
/// of type `ctype` that holds the rows `v`.
pub fn format_c_array2(name: &str, v: &Vec<Vec<String>>, ctype: &str, is_extern: bool) -> (f: Format)
    requires
        spec_is_rectangular(row_views(v@)),
    ensures
        f@ == spec_format_c_array2(name@, row_views(v@), ctype@, is_extern),
{
    let contents = make_c_array2(v);
    assert(row_views(v@)[0] == views(v[0]@));
    let len_2nd_dim = v[0].len();
    let mut suffix = concat2("[][", decimal_string(len_2nd_dim).as_str());
    suffix.append("]");
    format_array(name, ctype, suffix.as_str(), contents.as_str(), is_extern)
}

/// An array that is being described: its name, whether it is `extern`, the
/// type of its items, and its items, in one dimension or in two.
pub struct CArray {
    name: String,
    is_extern: bool,
    c_type: String,
    contents_1d: Option<Vec<String>>,
    contents_2d: Option<Vec<Vec<String>>>,
}

/// A `CArray` as a mathematical value.
pub struct CArrayView {
    pub name: Seq<char>,
    pub is_extern: bool,
    pub c_type: Seq<char>,
    pub contents_1d: Option<Seq<Seq<char>>>,
    pub contents_2d: Option<Seq<Seq<Seq<char>>>>,
}

/// A copy of a list of strings.
pub fn clone_strings(v: &Vec<String>) -> (copy: Vec<String>)
    ensures
        views(copy@) == views(v@),
{
    let mut copy: Vec<String> = Vec::new();
    let mut i: usize = 0;
    while i < v.len()
        invariant
            i <= v.len(),
            copy.len() == i,
            forall|j: int| 0 <= j < i ==> copy[j]@ == v[j]@,
        decreases v.len() - i,
    {
        copy.push(v[i].clone());
        i += 1;
    }
    assert(views(copy@) =~= views(v@));
    copy
}

impl View for CArray {
    type V = CArrayView;

    closed spec fn view(&self) -> CArrayView {
        CArrayView {
            name: self.name@,
            is_extern: self.is_extern,
            c_type: self.c_type@,
            contents_1d: match self.contents_1d {
                Some(v) => Some(views(v@)),
                None => None,
            },
            contents_2d: match self.contents_2d {
                Some(v) => Some(row_views(v@)),
                None => None,
            },
        }
    }
}

impl CArray {
    /// An `extern` array of `uint8_t` called `name`, without items yet.
    pub fn new(name: &str) -> (a: CArray)
        ensures
            a@ == (CArrayView {
                name: name@,
                is_extern: true,
                c_type: "uint8_t"@,
                contents_1d: None,
                contents_2d: None,
            }),
    {
        CArray {
            name: name.to_owned(),
            is_extern: true,
            c_type: "uint8_t".to_owned(),
            contents_1d: None,
            contents_2d: None,
        }
    }

    /// Says whether the array is `extern`.
    pub fn is_extern(self, is_extern: bool) -> (a: CArray)
        ensures
            a@ == (CArrayView { is_extern, ..self@ }),
    {
        let mut a = self;
        a.is_extern = is_extern;
        a
    }

    /// Sets the type of the items.
    pub fn c_type(self, c_type: &str) -> (a: CArray)
        ensures
            a@ == (CArrayView { c_type: c_type@, ..self@ }),
    {
        let mut a = self;
        a.c_type = c_type.to_owned();
        a
    }

    /// Gives the array its items, in one dimension. An array has items in
    /// one dimension or in two, not both.
    pub fn fill_1d(self, contents: &Vec<String>) -> (a: CArray)
        requires
            self@.contents_2d is None,
        ensures
            a@ == (CArrayView { contents_1d: Some(views(contents@)), ..self@ }),
    {
        let mut a = self;
        a.contents_1d = Some(clone_strings(contents));
        a
    }

    /// Gives the array its items, in two dimensions.
    pub fn fill_2d(self, contents: &Vec<Vec<String>>) -> (a: CArray)
        requires
            self@.contents_1d is None,
        ensures
            a@ == (CArrayView { contents_2d: Some(row_views(contents@)), ..self@ }),
    {
        let mut rows: Vec<Vec<String>> = Vec::new();
        let mut i: usize = 0;
        while i < contents.len()
            invariant
                i <= contents.len(),
                rows.len() == i,
                forall|j: int| 0 <= j < i ==> views(rows[j]@) == views(contents[j]@),
            decreases contents.len() - i,
        {
            rows.push(clone_strings(&contents[i]));
            i += 1;
        }
        assert(row_views(rows@) =~= row_views(contents@));
        let mut a = self;
        a.contents_2d = Some(rows);
        a
    }

    /// The declaration and the definition of the array. Items in two
    /// dimensions are rejected unless they make a rectangle.
    pub fn format(self) -> (r: Result<Format, Error>)
        requires
            self@.contents_1d is Some || self@.contents_2d is Some,
        ensures
            self@.contents_1d is Some ==> r is Ok && r->Ok_0@ == spec_format_c_array(
                self@.name,
                self@.contents_1d->0,
                self@.c_type,
                self@.is_extern,
            ),
            self@.contents_1d is None && spec_is_rectangular(self@.contents_2d->0) ==> r is Ok
                && r->Ok_0@ == spec_format_c_array2(
                self@.name,
                self@.contents_2d->0,
                self@.c_type,
                self@.is_extern,
            ),
            self@.contents_1d is None && !spec_is_rectangular(self@.contents_2d->0) ==> r is Err
                && r->Err_0@ == (ErrorView::NotRectangular { name: self@.name }),
    {
        if let Some(contents) = &self.contents_1d {
            Ok(format_c_array(self.name.as_str(), contents, self.c_type.as_str(), self.is_extern))
        } else if let Some(contents) = &self.contents_2d {
            if is_rectangular(contents) {
                Ok(format_c_array2(self.name.as_str(), contents, self.c_type.as_str(), self.is_extern))
            } else {
                Err(Error::NotRectangular { name: self.name.clone() })
            }
        } else {
            vstd::pervasive::unreached()
        }
    }
}

} // verus!
