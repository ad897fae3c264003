//! The tree of declarations that the compiler emits, and its text: a header
//! and a body.

use vstd::prelude::*;
use vstd::string::*;
use crate::format::c_array::{
    format_c_array, format_c_array2, is_rectangular, row_views, spec_format_array, spec_format_c_array,
    spec_format_c_array2, spec_is_rectangular, Format, FormatView,
};
use crate::text::{concat2, concat3, views};
use crate::types::errors::{Error, ErrorView};
use crate::types::names::{clone_codes, code_views, CCode};

verus! {

/// A declaration, or a group of declarations.
#[derive(Debug, PartialEq, Eq)]
#[allow(inconsistent_fields)]
pub enum CTree {
    /// `#define name value`, in the header.
    Define { name: CCode, value: CCode },
    /// `#define name`, in the header, if `value` holds; nothing otherwise.
    Ifdef { name: CCode, value: bool },
    /// The header of `contents` between `#ifndef conditional` and `#endif`.
    Ifndef { conditional: CCode, contents: Box<CTree> },
    /// A constant. One that is not `extern` is absent from the header.
    ConstVar { name: CCode, value: CCode, c_type: CCode, is_extern: bool },
    /// An array.
    Array { name: CCode, values: Vec<CCode>, c_type: CCode, is_extern: bool },
    /// An array of rows of one length.
    Array2D { name: CCode, values: Vec<Vec<CCode>>, c_type: CCode, is_extern: bool },
    /// An enumeration, in the header, with the type of its values if one is
    /// given.
    EnumDecl { name: CCode, variants: Vec<CCode>, size: Option<CCode> },
    /// `contents` inside a namespace, in the header and in the body.
    Namespace { name: CCode, contents: Box<CTree> },
    /// Declarations one after the other.
    Group(Vec<CTree>),
    /// Text for the header, as it is.
    LiteralH(CCode),
    /// Text for the body, as it is.
    LiteralC(CCode),
    /// `#include path`, in the header.
    IncludeH { path: CCode },
    /// In the body, the inclusion of the header that goes with it.
    IncludeSelf,
}

/// A `CTree` as a mathematical value.
#[allow(inconsistent_fields)]
pub enum CTreeView {
    Define { name: Seq<char>, value: Seq<char> },
    Ifdef { name: Seq<char>, value: bool },
    Ifndef { conditional: Seq<char>, contents: Box<CTreeView> },
    ConstVar { name: Seq<char>, value: Seq<char>, c_type: Seq<char>, is_extern: bool },
    Array { name: Seq<char>, values: Seq<Seq<char>>, c_type: Seq<char>, is_extern: bool },
    Array2D { name: Seq<char>, values: Seq<Seq<Seq<char>>>, c_type: Seq<char>, is_extern: bool },
    EnumDecl { name: Seq<char>, variants: Seq<Seq<char>>, size: Option<Seq<char>> },
    Namespace { name: Seq<char>, contents: Box<CTreeView> },
    Group(Seq<CTreeView>),
    LiteralH(Seq<char>),
    LiteralC(Seq<char>),
    IncludeH { path: Seq<char> },
    IncludeSelf,
}

/// The views of the rows of a two-dimensional array of code.
pub open spec fn code_rows(rows: Seq<Vec<CCode>>) -> Seq<Seq<Seq<char>>> {
    rows.map_values(|r: Vec<CCode>| code_views(r@))
}

/// The trees of a list, as mathematical values.
pub open spec fn models(items: Seq<CTree>) -> Seq<CTreeView>
    decreases items,
{
    if items.len() == 0 {
        Seq::empty()
    } else {
        models(items.drop_last()).push(items.last().model())
    }
}

impl CTree {
    /// The tree as a mathematical value.
    pub open spec fn model(&self) -> CTreeView
        decreases self,
    {
        match self {
            CTree::Define { name, value } => CTreeView::Define { name: name@, value: value@ },
            CTree::Ifdef { name, value } => CTreeView::Ifdef { name: name@, value: *value },
            CTree::Ifndef { conditional, contents } => CTreeView::Ifndef {
                conditional: conditional@,
                contents: Box::new(contents.model()),
            },
            CTree::ConstVar { name, value, c_type, is_extern } => CTreeView::ConstVar {
                name: name@,
                value: value@,
                c_type: c_type@,
                is_extern: *is_extern,
            },
            CTree::Array { name, values, c_type, is_extern } => CTreeView::Array {
                name: name@,
                values: code_views(values@),
                c_type: c_type@,
                is_extern: *is_extern,
            },
            CTree::Array2D { name, values, c_type, is_extern } => CTreeView::Array2D {
                name: name@,
                values: code_rows(values@),
                c_type: c_type@,
                is_extern: *is_extern,
            },
            CTree::EnumDecl { name, variants, size } => CTreeView::EnumDecl {
                name: name@,
                variants: code_views(variants@),
                size: match size {
                    Some(s) => Some(s@),
                    None => None,
                },
            },
            CTree::Namespace { name, contents } => CTreeView::Namespace {
                name: name@,
                contents: Box::new(contents.model()),
            },
            CTree::Group(items) => CTreeView::Group(models(items@)),
            CTree::LiteralH(text) => CTreeView::LiteralH(text@),
            CTree::LiteralC(text) => CTreeView::LiteralC(text@),
            CTree::IncludeH { path } => CTreeView::IncludeH { path: path@ },
            CTree::IncludeSelf => CTreeView::IncludeSelf,
        }
    }
}

impl View for CTree {
    type V = CTreeView;

    open spec fn view(&self) -> CTreeView {
        self.model()
    }
}


/// The line of one variant of an enumeration.
pub open spec fn variant_line(variant: Seq<char>) -> Seq<char> {
    "  "@ + variant + ",\n"@
}

/// The lines of the variants of an enumeration.
pub open spec fn variant_lines(variants: Seq<Seq<char>>) -> Seq<char>
    decreases variants.len(),
{
    if variants.len() == 0 {
        Seq::empty()
    } else {
        variant_lines(variants.drop_last()) + variant_line(variants.last())
    }
}

/// The text of an enumeration.
pub open spec fn enum_text(name: Seq<char>, variants: Seq<Seq<char>>, size: Option<Seq<char>>) -> Seq<
    char,
> {
    "enum "@ + name + (match size {
        Some(s) => " : "@ + s,
        None => Seq::empty(),
    }) + " {\n"@ + variant_lines(variants) + "};\n\n"@
}

/// `inner` inside the namespace `name`.
pub open spec fn in_namespace(name: Seq<char>, inner: Seq<char>) -> Seq<char> {
    "namespace "@ + name + " {\n\n"@ + inner + "\n} // namespace "@ + name + "\n"@
}

/// A header alone.
pub open spec fn only_h(h: Seq<char>) -> FormatView {
    FormatView { h, c: Seq::empty() }
}

/// The texts of a list of trees, one after the other.
pub open spec fn group_text(items: Seq<CTreeView>, base: Seq<char>) -> FormatView
    decreases items,
{
    if items.len() == 0 {
        FormatView { h: Seq::empty(), c: Seq::empty() }
    } else {
        let before = group_text(items.drop_last(), base);
        let last = items.last().text(base);
        FormatView { h: before.h + last.h, c: before.c + last.c }
    }
}

/// The name of the first two-dimensional array of the list that cannot be
/// written, if there is one.
pub open spec fn group_bad_array(items: Seq<CTreeView>) -> Option<Seq<char>>
    decreases items,
{
    if items.len() == 0 {
        None
    } else {
        match group_bad_array(items.drop_last()) {
            Some(name) => Some(name),
            None => items.last().bad_array(),
        }
    }
}

impl CTreeView {
    /// The name of the first two-dimensional array of the tree that has no
    /// row or rows of different lengths, if there is one. Such a tree has
    /// no text.
    pub open spec fn bad_array(self) -> Option<Seq<char>>
        decreases self,
    {
        match self {
            CTreeView::Array2D { name, values, .. } => if spec_is_rectangular(values) {
                None
            } else {
                Some(name)
            },
            CTreeView::Ifndef { contents, .. } => contents.bad_array(),
            CTreeView::Namespace { contents, .. } => contents.bad_array(),
            CTreeView::Group(items) => group_bad_array(items),
            _ => None,
        }
    }

    /// The text of the tree, for files called `base` with `.h` and an
    /// extension for the body.
    pub open spec fn text(self, base: Seq<char>) -> FormatView
        decreases self,
    {
        match self {
            CTreeView::Define { name, value } => only_h("#define "@ + name + " "@ + value + "\n"@),
            CTreeView::Ifdef { name, value } => only_h(
                if value {
                    "#define "@ + name + "\n"@
                } else {
                    Seq::empty()
                },
            ),
            CTreeView::Ifndef { conditional, contents } => FormatView {
                h: "#ifndef "@ + conditional + "\n"@ + contents.text(base).h + "#endif\n"@,
                c: contents.text(base).c,
            },
            CTreeView::ConstVar { name, value, c_type, is_extern } => spec_format_array(
                name,
                c_type,
                Seq::empty(),
                value,
                is_extern,
            ),
            CTreeView::Array { name, values, c_type, is_extern } => spec_format_c_array(
                name,
                values,
                c_type,
                is_extern,
            ),
            CTreeView::Array2D { name, values, c_type, is_extern } => spec_format_c_array2(
                name,
                values,
                c_type,
                is_extern,
            ),
            CTreeView::EnumDecl { name, variants, size } => only_h(enum_text(name, variants, size)),
            CTreeView::Namespace { name, contents } => FormatView {
                h: in_namespace(name, contents.text(base).h),
                c: in_namespace(name, contents.text(base).c),
            },
            CTreeView::Group(items) => group_text(items, base),
            CTreeView::LiteralH(text) => only_h(text),
            CTreeView::LiteralC(text) => FormatView { h: Seq::empty(), c: text },
            CTreeView::IncludeH { path } => only_h("#include "@ + path + "\n"@),
            CTreeView::IncludeSelf => FormatView {
                h: Seq::empty(),
                c: "#include \""@ + base + ".h\"\n"@,
            },
        }
    }
}

/// The strings of a list of pieces of code.
pub fn code_strings(codes: &Vec<CCode>) -> (strings: Vec<String>)
    ensures
        views(strings@) == code_views(codes@),
{
    let mut strings: Vec<String> = Vec::new();
    let mut i: usize = 0;
    while i < codes.len()
        invariant
            i <= codes.len(),
            strings.len() == i,
            forall|j: int| 0 <= j < i ==> strings[j]@ == codes[j]@,
        decreases codes.len() - i,
    {
        strings.push(codes[i].0.clone());
        i += 1;
    }
    assert(views(strings@) =~= code_views(codes@));
    strings
}

/// A header alone.
fn header(h: String) -> (f: Format)
    ensures
        f@ == only_h(h@),
{
    Format { h, c: String::new() }
}

/// `inner` inside the namespace `name`.
fn wrap_namespace(name: &str, inner: &str) -> (text: String)
    ensures
        text@ == in_namespace(name@, inner@),
{
    let mut text = concat3("namespace ", name, " {\n\n");
    text.append(inner);
    text.append("\n} // namespace ");
    text.append(name);
    text.append("\n");
    text
}

/// The text of an enumeration.
fn format_enum(name: &CCode, variants: &Vec<CCode>, size: &Option<CCode>) -> (text: String)
    ensures
        text@ == enum_text(
            name@,
            code_views(variants@),
            match size {
                Some(s) => Some(s@),
                None => None,
            },
        ),
{
    let mut text = concat2("enum ", name.as_str());
    match size {
        Some(s) => {
            text.append(" : ");
            text.append(s.as_str());
        },
        None => {},
    }
    text.append(" {\n");
    let ghost head = text@;
    let ghost all = code_views(variants@);
    let mut i: usize = 0;
    while i < variants.len()
        invariant
            i <= variants.len(),
            all == code_views(variants@),
            text@ == head + variant_lines(all.take(i as int)),
        decreases variants.len() - i,
    {
        text.append("  ");
        text.append(variants[i].as_str());
        text.append(",\n");
        proof {
            assert(all.take(i + 1).drop_last() == all.take(i as int));
            assert(all.take(i + 1).last() == variants[i as int]@);
            assert(text@ =~= head + variant_lines(all.take(i + 1)));
        }
        i += 1;
    }
    assert(all.take(i as int) == all);
    text.append("};\n\n");
    proof {
        assert(text@ =~= enum_text(
            name@,
            code_views(variants@),
            match size {
                Some(s) => Some(s@),
                None => None,
            },
        ));
    }
    text
}

impl CTree {
    /// The text of the tree, for files called `file_name_base` with `.h`
    /// and an extension for the body. A tree that holds a two-dimensional
    /// array without rows, or with rows of different lengths, is rejected
    /// whole, with the name of the first such array.
    pub fn format(&self, file_name_base: &str) -> (r: Result<Format, Error>)
        ensures
            match self@.bad_array() {
                Some(name) => r is Err && r->Err_0@ == (ErrorView::NotRectangular { name }),
                None => r is Ok && r->Ok_0@ == self@.text(file_name_base@),
            },
        decreases self,
    {
        match self {
            CTree::Define { name, value } => {
                let mut h = concat3("#define ", name.as_str(), " ");
                h.append(value.as_str());
                h.append("\n");
                Ok(header(h))
            },
            CTree::Ifdef { name, value } => {
                if *value {
                    Ok(header(concat3("#define ", name.as_str(), "\n")))
                } else {
                    Ok(header(String::new()))
                }
            },
            CTree::Ifndef { conditional, contents } => {
                match contents.format(file_name_base) {
                    Ok(inner) => {
                        let mut h = concat3("#ifndef ", conditional.as_str(), "\n");
                        h.append(inner.h.as_str());
                        h.append("#endif\n");
                        Ok(Format { h, c: inner.c })
                    },
                    Err(e) => Err(e),
                }
            },
            CTree::ConstVar { name, value, c_type, is_extern } => {
                let mut decl = if *is_extern {
                    "extern const ".to_owned()
                } else {
                    "const ".to_owned()
                };
                decl.append(c_type.as_str());
                decl.append(" ");
                decl.append(name.as_str());
                let h = if *is_extern {
                    concat2(decl.as_str(), ";\n")
                } else {
                    String::new()
                };
                let mut c = decl;
                c.append(" = ");
                c.append(value.as_str());
                c.append(";\n\n");
                let f = Format { h, c };
                proof {
                    let want = spec_format_array(name@, c_type@, Seq::empty(), value@, *is_extern);
                    assert(f@.h =~= want.h);
                    assert(f@.c =~= want.c);
                }
                Ok(f)
            },
            CTree::Array { name, values, c_type, is_extern } => {
                let items = code_strings(values);
                Ok(format_c_array(name.as_str(), &items, c_type.as_str(), *is_extern))
            },
            CTree::Array2D { name, values, c_type, is_extern } => {
                let mut rows: Vec<Vec<String>> = Vec::new();
                let mut i: usize = 0;
                while i < values.len()
                    invariant
                        i <= values.len(),
                        rows.len() == i,
                        forall|j: int| 0 <= j < i ==> views(rows[j]@) == code_views(values[j]@),
                    decreases values.len() - i,
                {
                    rows.push(code_strings(&values[i]));
                    i += 1;
                }
                assert(row_views(rows@) =~= code_rows(values@));
                if is_rectangular(&rows) {
                    Ok(format_c_array2(name.as_str(), &rows, c_type.as_str(), *is_extern))
                } else {
                    Err(Error::NotRectangular { name: name.0.clone() })
                }
            },
            CTree::EnumDecl { name, variants, size } => Ok(header(format_enum(name, variants, size))),
            CTree::Namespace { name, contents } => {
                match contents.format(file_name_base) {
                    Ok(inner) => Ok(
                        Format {
                            h: wrap_namespace(name.as_str(), inner.h.as_str()),
                            c: wrap_namespace(name.as_str(), inner.c.as_str()),
                        },
                    ),
                    Err(e) => Err(e),
                }
            },
            CTree::Group(items) => {
                let ghost all = models(items@);
                let mut f = Format::new();
                let mut i: usize = 0;
                while i < items.len()
                    invariant
                        i <= items.len(),
                        self == CTree::Group(*items),
                        all == models(items@),
                        group_bad_array(models(items@.take(i as int))) is None,
                        f@ == group_text(models(items@.take(i as int)), file_name_base@),
                    decreases items.len() - i,
                {
                    proof {
                        assert(items@.take(i + 1).drop_last() == items@.take(i as int));
                        assert(items@.take(i + 1).last() == items[i as int]);
                        lemma_models_push(items@.take(i + 1));
                    }
                    match items[i].format(file_name_base) {
                        Ok(part) => {
                            f.append(&part);
                        },
                        Err(e) => {
                            proof {
                                lemma_bad_array_stays(items@, i + 1);
                            }
                            return Err(e);
                        },
                    }
                    i += 1;
                }
                assert(items@.take(i as int) == items@);
                Ok(f)
            },
            CTree::LiteralH(text) => Ok(header(text.0.clone())),
            CTree::LiteralC(text) => Ok(Format { h: String::new(), c: text.0.clone() }),
            CTree::IncludeH { path } => Ok(header(concat3("#include ", path.as_str(), "\n"))),
            CTree::IncludeSelf => Ok(
                Format { h: String::new(), c: concat3("#include \"", file_name_base, ".h\"\n") },
            ),
        }
    }
}

/// An array that cannot be written, once found, stays the first one.
proof fn lemma_bad_array_stays(items: Seq<CTree>, n: int)
    requires
        0 <= n <= items.len(),
        group_bad_array(models(items.take(n))) is Some,
    ensures
        group_bad_array(models(items)) == group_bad_array(models(items.take(n))),
    decreases items.len() - n,
{
    if n < items.len() {
        assert(items.take(n + 1).drop_last() == items.take(n));
        lemma_models_push(items.take(n + 1));
        lemma_bad_array_stays(items, n + 1);
    } else {
        assert(items.take(n) == items);
    }
}

/// The models of a list are those of all but the last, and that of the
/// last.
pub proof fn lemma_models_push(items: Seq<CTree>)
    requires
        items.len() > 0,
    ensures
        models(items) == models(items.drop_last()).push(items.last().model()),
        models(items).drop_last() == models(items.drop_last()),
        models(items).last() == items.last().model(),
        models(items).len() == items.len(),
    decreases items.len(),
{
    lemma_models_len(items.drop_last());
    assert(models(items).drop_last() =~= models(items.drop_last()));
}

/// A list has as many models as trees.
pub proof fn lemma_models_len(items: Seq<CTree>)
    ensures
        models(items).len() == items.len(),
    decreases items.len(),
{
    if items.len() > 0 {
        lemma_models_len(items.drop_last());
    }
}


/// Adds a tree at the end of a list.
pub fn push_tree(items: &mut Vec<CTree>, tree: CTree)
    ensures
        models(final(items)@) == models(old(items)@).push(tree@),
{
    items.push(tree);
    proof {
        assert(items@.drop_last() == old(items)@);
        lemma_models_push(items@);
    }
}

/// Adds the trees of `more` at the end of a list.
pub fn extend_trees(items: &mut Vec<CTree>, more: Vec<CTree>)
    ensures
        models(final(items)@) == models(old(items)@) + models(more@),
{
    let mut more = more;
    let ghost added = more@;
    items.append(&mut more);
    proof {
        lemma_models_add(old(items)@, added);
    }
}

/// The models of two lists, one after the other, are the models of the
/// lists put together.
pub proof fn lemma_models_add(a: Seq<CTree>, b: Seq<CTree>)
    ensures
        models(a + b) == models(a) + models(b),
    decreases b.len(),
{
    if b.len() == 0 {
        assert(a + b == a);
        assert(models(a) + models(b) =~= models(a));
    } else {
        lemma_models_add(a, b.drop_last());
        assert((a + b).drop_last() == a + b.drop_last());
        assert((a + b).last() == b.last());
        assert(models(a + b) =~= models(a) + models(b));
    }
}

impl CTree {
    /// `#define name value`.
    pub fn define(name: &str, value: CCode) -> (tree: CTree)
        ensures
            tree@ == (CTreeView::Define { name: name@, value: value@ }),
    {
        CTree::Define { name: CCode::new(name), value }
    }

    /// `#define name`, if `value` holds.
    pub fn ifdef(name: &str, value: bool) -> (tree: CTree)
        ensures
            tree@ == (CTreeView::Ifdef { name: name@, value }),
    {
        CTree::Ifdef { name: CCode::new(name), value }
    }

    /// An `extern` array.
    pub fn array(name: &str, values: Vec<CCode>, c_type: &str) -> (tree: CTree)
        ensures
            tree@ == (CTreeView::Array {
                name: name@,
                values: code_views(values@),
                c_type: c_type@,
                is_extern: true,
            }),
    {
        CTree::Array { name: CCode::new(name), values, c_type: CCode::new(c_type), is_extern: true }
    }

    /// An `extern` constant.
    pub fn const_var(name: &str, value: CCode, c_type: &str) -> (tree: CTree)
        ensures
            tree@ == (CTreeView::ConstVar {
                name: name@,
                value: value@,
                c_type: c_type@,
                is_extern: true,
            }),
    {
        CTree::ConstVar { name: CCode::new(name), value, c_type: CCode::new(c_type), is_extern: true }
    }

    /// Text for the header.
    pub fn literal_h(text: &str) -> (tree: CTree)
        ensures
            tree@ == CTreeView::LiteralH(text@),
    {
        CTree::LiteralH(CCode::new(text))
    }

    /// The header of `contents`, made only where `conditional` is not
    /// defined.
    pub fn ifndef(conditional: CCode, contents: CTree) -> (tree: CTree)
        ensures
            tree@ == (CTreeView::Ifndef { conditional: conditional@, contents: Box::new(contents@) }),
    {
        CTree::Ifndef { conditional, contents: Box::new(contents) }
    }

    /// `contents` inside the namespace `name`.
    pub fn namespace(name: &str, contents: CTree) -> (tree: CTree)
        ensures
            tree@ == (CTreeView::Namespace { name: name@, contents: Box::new(contents@) }),
    {
        CTree::Namespace { name: CCode::new(name), contents: Box::new(contents) }
    }

    /// A group of the trees `items`.
    pub fn group(items: Vec<CTree>) -> (tree: CTree)
        ensures
            tree@ == CTreeView::Group(models(items@)),
    {
        CTree::Group(items)
    }
}

/// A number as a piece of code.
pub fn number(n: usize) -> (code: CCode)
    ensures
        code@ == crate::text::decimal(n as nat),
{
    CCode(crate::text::decimal_string(n))
}


impl CTree {
    /// A copy of the tree.
    pub fn copy(&self) -> (tree: CTree)
        ensures
            tree@ == self@,
        decreases self,
    {
        match self {
            CTree::Define { name, value } => CTree::Define { name: name.clone(), value: value.clone() },
            CTree::Ifdef { name, value } => CTree::Ifdef { name: name.clone(), value: *value },
            CTree::Ifndef { conditional, contents } => CTree::Ifndef {
                conditional: conditional.clone(),
                contents: Box::new(contents.copy()),
            },
            CTree::ConstVar { name, value, c_type, is_extern } => CTree::ConstVar {
                name: name.clone(),
                value: value.clone(),
                c_type: c_type.clone(),
                is_extern: *is_extern,
            },
            CTree::Array { name, values, c_type, is_extern } => CTree::Array {
                name: name.clone(),
                values: clone_codes(values),
                c_type: c_type.clone(),
                is_extern: *is_extern,
            },
            CTree::Array2D { name, values, c_type, is_extern } => {
                let mut rows: Vec<Vec<CCode>> = Vec::new();
                let mut i: usize = 0;
                while i < values.len()
                    invariant
                        i <= values.len(),
                        rows.len() == i,
                        forall|j: int| 0 <= j < i ==> code_views(rows[j]@) == code_views(values[j]@),
                    decreases values.len() - i,
                {
                    rows.push(clone_codes(&values[i]));
                    i += 1;
                }
                assert(code_rows(rows@) =~= code_rows(values@));
                CTree::Array2D {
                    name: name.clone(),
                    values: rows,
                    c_type: c_type.clone(),
                    is_extern: *is_extern,
                }
            },
            CTree::EnumDecl { name, variants, size } => CTree::EnumDecl {
                name: name.clone(),
                variants: clone_codes(variants),
                size: match size {
                    Some(s) => Some(s.clone()),
                    None => None,
                },
            },
            CTree::Namespace { name, contents } => CTree::Namespace {
                name: name.clone(),
                contents: Box::new(contents.copy()),
            },
            CTree::Group(items) => {
                let mut copies: Vec<CTree> = Vec::new();
                assert(models(copies@) =~= Seq::<CTreeView>::empty());
                assert(items@.take(0) =~= Seq::<CTree>::empty());
                let mut i: usize = 0;
                while i < items.len()
                    invariant
                        i <= items.len(),
                        self == CTree::Group(*items),
                        models(copies@) == models(items@.take(i as int)),
                    decreases items.len() - i,
                {
                    proof {
                        assert(items@.take(i + 1).drop_last() == items@.take(i as int));
                        assert(items@.take(i + 1).last() == items[i as int]);
                        lemma_models_push(items@.take(i + 1));
                        assert(self->Group_0 == *items);
                    }
                    push_tree(&mut copies, items[i].copy());
                    i += 1;
                }
                assert(items@.take(i as int) == items@);
                CTree::Group(copies)
            },
            CTree::LiteralH(text) => CTree::LiteralH(text.clone()),
            CTree::LiteralC(text) => CTree::LiteralC(text.clone()),
            CTree::IncludeH { path } => CTree::IncludeH { path: path.clone() },
            CTree::IncludeSelf => CTree::IncludeSelf,
        }
    }

    /// An enumeration of bytes.
    pub fn enum_decl(name: &str, variants: Vec<CCode>) -> (tree: CTree)
        ensures
            tree@ == (CTreeView::EnumDecl {
                name: name@,
                variants: code_views(variants@),
                size: Some("uint8_t"@),
            }),
    {
        CTree::EnumDecl { name: CCode::new(name), variants, size: Some(CCode::new("uint8_t")) }
    }
}

/// A copy of a list of trees.
pub fn copy_trees(items: &Vec<CTree>) -> (copies: Vec<CTree>)
    ensures
        models(copies@) == models(items@),
{
    let mut copies: Vec<CTree> = Vec::new();
    assert(models(copies@) =~= Seq::<CTreeView>::empty());
    assert(items@.take(0) =~= Seq::<CTree>::empty());
    let mut i: usize = 0;
    while i < items.len()
        invariant
            i <= items.len(),
            models(copies@) == models(items@.take(i as int)),
        decreases items.len() - i,
    {
        proof {
            assert(items@.take(i + 1).drop_last() == items@.take(i as int));
            assert(items@.take(i + 1).last() == items[i as int]);
            lemma_models_push(items@.take(i + 1));
        }
        push_tree(&mut copies, items[i].copy());
        i += 1;
    }
    assert(items@.take(i as int) == items@);
    copies
}

} // verus!
