//! The tree materializer: walks a template tree depth-first in lexicographic
//! order of entry names, renders every path segment and every file body
//! independently against the dictionary, rejects rendered segments that
//! contain a path separator, and plans one output file per template file.
//! The first failure aborts the whole walk.

use vstd::prelude::*;

use crate::dict::Dict;
use crate::error::Error;
use crate::render::{render, spec_render};
use crate::tokenize::spec_tokenize;

verus! {

use vstd::string::StringExecFns;

broadcast use {
    vstd::std_specs::vec::group_vec_axioms,
    vstd::seq_lib::group_to_multiset_ensures,
    vstd::multiset::group_multiset_axioms,
    vstd::multiset::group_multiset_properties,
    crate::views::lemma_deep_view_len,
    crate::views::lemma_deep_view_index,
};

/// One component of a template-relative path, as the walk found it: a
/// proper UTF-8 name, or a name that could not be decoded.
pub enum Segment {
    Name(String),
    NotUtf8,
}

/// The mathematical counterpart of [`Segment`].
pub enum SegmentV {
    Name(Seq<char>),
    NotUtf8,
}

impl DeepView for Segment {
    type V = SegmentV;

    open spec fn deep_view(&self) -> SegmentV {
        match self {
            Segment::Name(s) => SegmentV::Name(s.view()),
            Segment::NotUtf8 => SegmentV::NotUtf8,
        }
    }
}

/// A planned output file: rendered directory segments (outermost first),
/// rendered file name, rendered content.
#[derive(Debug, PartialEq, Eq)]
pub struct OutputFile {
    pub dirs: Vec<String>,
    pub name: String,
    pub content: String,
}

/// The mathematical counterpart of [`OutputFile`].
pub struct OutputFileV {
    pub dirs: Seq<Seq<char>>,
    pub name: Seq<char>,
    pub content: Seq<char>,
}

impl DeepView for OutputFile {
    type V = OutputFileV;

    open spec fn deep_view(&self) -> OutputFileV {
        OutputFileV { dirs: self.dirs.deep_view(), name: self.name@, content: self.content@ }
    }
}

/// The failures the materializer itself can decide, with their payloads.
pub enum ErrV {
    NotFound(Seq<char>),
    Separator { tmpl: Seq<char>, rendered: Seq<char> },
    DirNotUtf8(Seq<char>),
    ReadFailed(Seq<char>),
}

/// Whether the exec error value carries exactly the payloads of the spec
/// error.
pub open spec fn err_matches(e: Error, v: ErrV) -> bool {
    match v {
        ErrV::NotFound(n) => e matches Error::VariableNotFound(s) && s@ == n,
        ErrV::Separator { tmpl, rendered } => e matches Error::VariableContainsPathSeparator(
            a,
            b,
        ) && a@ == tmpl && b@ == rendered,
        ErrV::DirNotUtf8(d) => e matches Error::TemplateDirNameIsNotUtf8(s) && s@ == d,
        ErrV::ReadFailed(f) => e matches Error::ReadFileFailed(s) && s@ == f,
    }
}

/// Join a path and one further segment for display: an empty path
/// contributes no separator.
pub open spec fn spec_join(a: Seq<char>, b: Seq<char>) -> Seq<char> {
    if a.len() == 0 {
        b
    } else {
        a + seq!['/'] + b
    }
}

/// Exec counterpart of [`spec_join`].
pub fn join_seg(a: &String, b: &str) -> (r: String)
    ensures
        r@ == spec_join(a@, b@),
{
    proof {
        reveal_strlit("/");
    }
    if a.as_str().is_empty() {
        let mut r = String::new();
        r.append(b);
        proof {
            assert(Seq::<char>::empty() + b@ =~= b@);
        }
        r
    } else {
        let mut r = a.clone();
        r.append("/");
        r.append(b);
        r
    }
}

/// Whether a rendered segment contains the path separator.
pub open spec fn has_sep(s: Seq<char>) -> bool {
    exists|i: int| 0 <= i < s.len() && s[i] == '/'
}

/// Exec counterpart of [`has_sep`]: scans the rendered segment for the
/// path separator.
pub fn contains_sep(s: &str) -> (r: bool)
    ensures
        r == has_sep(s@),
{
    let cs = crate::tokenize::chars_of(s);
    let mut i: usize = 0;
    while i < cs.len()
        invariant
            cs@ == s@,
            i <= s@.len(),
            forall|j: int| 0 <= j < i ==> s@[j] != '/',
        decreases s@.len() - i,
    {
        if cs[i] == '/' {
            return true;
        }
        i = i + 1;
    }
    false
}

/// Render the ancestor directory segments of one file, innermost first, and
/// validate each: the rendered segments in outermost-first order, or the
/// first failure. `tmpl` and `dd` are the template-relative path with
/// placeholders and the template-relative parent directory, as displayed in
/// failures.
pub open spec fn spec_handle_dirs(
    dirs: Seq<SegmentV>,
    tmpl: Seq<char>,
    dd: Seq<char>,
    m: Map<Seq<char>, Seq<char>>,
) -> Result<Seq<Seq<char>>, ErrV>
    decreases dirs.len(),
{
    if dirs.len() == 0 {
        Ok(Seq::empty())
    } else {
        match dirs.last() {
            SegmentV::NotUtf8 => Err(ErrV::DirNotUtf8(dd)),
            SegmentV::Name(seg) => match spec_render(spec_tokenize(seg), m) {
                Err(n) => Err(ErrV::NotFound(n)),
                Ok(r) => if has_sep(r) {
                    Err(ErrV::Separator { tmpl, rendered: spec_join(dd, r) })
                } else {
                    match spec_handle_dirs(dirs.drop_last(), tmpl, dd, m) {
                        Ok(rest) => Ok(rest.push(r)),
                        Err(e) => Err(e),
                    }
                },
            },
        }
    }
}

/// Process one template file: render its name, its ancestor directory names
/// (innermost first) and its content, validating every rendered segment.
/// `content` is `None` when the file's text could not be read.
pub open spec fn spec_handle_file(
    dirs: Seq<SegmentV>,
    dd: Seq<char>,
    name: Seq<char>,
    content: Option<Seq<char>>,
    m: Map<Seq<char>, Seq<char>>,
) -> Result<OutputFileV, ErrV> {
    let tmpl = spec_join(dd, name);
    match spec_render(spec_tokenize(name), m) {
        Err(n) => Err(ErrV::NotFound(n)),
        Ok(rname) => if has_sep(rname) {
            Err(ErrV::Separator { tmpl, rendered: spec_join(dd, rname) })
        } else {
            match spec_handle_dirs(dirs, tmpl, dd, m) {
                Err(e) => Err(e),
                Ok(rdirs) => match content {
                    None => Err(ErrV::ReadFailed(name)),
                    Some(c) => match spec_render(spec_tokenize(c), m) {
                        Err(n) => Err(ErrV::NotFound(n)),
                        Ok(rc) => Ok(OutputFileV { dirs: rdirs, name: rname, content: rc }),
                    },
                },
            }
        },
    }
}

/// Process one template file against the dictionary. `dirs` holds the
/// template-relative ancestor directory names, outermost first;
/// `dir_display` displays that parent path for failure messages; `content`
/// is the file's text, or `None` when reading it failed.
pub fn handle_file(
    dirs: &Vec<Segment>,
    dir_display: &String,
    name: &String,
    content: &Option<String>,
    data: &Dict,
) -> (r: Result<OutputFile, Error>)
    requires
        data.wf(),
    ensures
        match spec_handle_file(dirs.deep_view(), dir_display@, name@, content.deep_view(), data@) {
            Ok(f) => r matches Ok(of) && of.deep_view() == f,
            Err(v) => r matches Err(e) && err_matches(e, v),
        },
{
    let rname = match render(name.as_str(), data) {
        Ok(s) => s,
        Err(e) => {
            return Err(e);
        },
    };
    if contains_sep(rname.as_str()) {
        return Err(
            Error::VariableContainsPathSeparator(
                join_seg(dir_display, name.as_str()),
                join_seg(dir_display, rname.as_str()),
            ),
        );
    }
    let ghost dv = dirs.deep_view();
    let ghost tmpl = spec_join(dir_display@, name@);
    let mut rdirs: Vec<String> = Vec::new();
    let mut k = dirs.len();
    proof {
        assert(dv.take(dirs@.len() as int) =~= dv);
        assert(rdirs.deep_view().reverse() =~= Seq::<Seq<char>>::empty());
    }
    while k > 0
        invariant
            data.wf(),
            k <= dirs@.len(),
            dv == dirs.deep_view(),
            tmpl == spec_join(dir_display@, name@),
            spec_render(spec_tokenize(name@), data@) == Ok::<Seq<char>, Seq<char>>(rname@),
            !has_sep(rname@),
            spec_handle_dirs(dv, tmpl, dir_display@, data@) == (match spec_handle_dirs(
                dv.take(k as int),
                tmpl,
                dir_display@,
                data@,
            ) {
                Ok(rest) => Ok::<Seq<Seq<char>>, ErrV>(rest + rdirs.deep_view().reverse()),
                Err(e) => Err::<Seq<Seq<char>>, ErrV>(e),
            }),
        decreases k,
    {
        k = k - 1;
        proof {
            assert(dv.take(k + 1).last() == dv[k as int]);
            assert(dv.take(k + 1).drop_last() =~= dv.take(k as int));
        }
        let ghost done = rdirs.deep_view().reverse();
        match &dirs[k] {
            Segment::NotUtf8 => {
                return Err(Error::TemplateDirNameIsNotUtf8(dir_display.clone()));
            },
            Segment::Name(seg) => {
                let rseg = match render(seg.as_str(), data) {
                    Ok(s) => s,
                    Err(e) => {
                        return Err(e);
                    },
                };
                if contains_sep(rseg.as_str()) {
                    return Err(
                        Error::VariableContainsPathSeparator(
                            join_seg(dir_display, name.as_str()),
                            join_seg(dir_display, rseg.as_str()),
                        ),
                    );
                }
                rdirs.push(rseg);
                proof {
                    assert(rdirs.deep_view().reverse() =~= seq![rseg@] + done);
                    if spec_handle_dirs(dv.take(k as int), tmpl, dir_display@, data@) is Ok {
                        let rest = spec_handle_dirs(
                            dv.take(k as int),
                            tmpl,
                            dir_display@,
                            data@,
                        )->Ok_0;
                        assert(rest.push(rseg@) + done =~= rest + (seq![rseg@] + done));
                    }
                }
            },
        }
    }
    proof {
        assert(dv.take(0) =~= Seq::<SegmentV>::empty());
    }
    let mut out_dirs: Vec<String> = Vec::new();
    let ghost done = rdirs.deep_view().reverse();
    proof {
        assert(Seq::<Seq<char>>::empty() + done =~= done);
        assert(out_dirs.deep_view() + rdirs.deep_view().reverse() =~= done);
    }
    loop
        invariant
            out_dirs.deep_view() + rdirs.deep_view().reverse() == done,
        ensures
            out_dirs.deep_view() == done,
        decreases rdirs@.len(),
    {
        let ghost rv = rdirs.deep_view();
        match rdirs.pop() {
            Some(x) => {
                out_dirs.push(x);
                proof {
                    assert(rv.reverse()[0] == x@);
                    assert(out_dirs.deep_view() =~= out_dirs.deep_view().drop_last().push(x@));
                    assert(out_dirs.deep_view() + rdirs.deep_view().reverse() =~= (
                    out_dirs.deep_view().drop_last() + rv.reverse()));
                }
            },
            None => {
                proof {
                    assert(out_dirs.deep_view() + rdirs.deep_view().reverse() =~= out_dirs.deep_view());
                }
                break ;
            },
        }
    }
    let text = match content {
        Some(t) => t,
        None => {
            return Err(Error::ReadFileFailed(name.clone()));
        },
    };
    let rcontent = match render(text.as_str(), data) {
        Ok(s) => s,
        Err(e) => {
            return Err(e);
        },
    };
    Ok(OutputFile { dirs: out_dirs, name: rname, content: rcontent })
}

/// One entry of an in-memory template tree: a directory with its children,
/// or a file with its text.
pub enum Entry {
    Dir { name: String, entries: Vec<Entry> },
    File { name: String, content: String },
}

/// The mathematical counterpart of [`Entry`].
pub enum EntryV {
    Dir { name: Seq<char>, entries: Seq<EntryV> },
    File { name: Seq<char>, content: Seq<char> },
}

/// The view of a template entry.
pub open spec fn entry_view(e: Entry) -> EntryV
    decreases e, 0int,
{
    match e {
        Entry::Dir { name, entries } => {
            proof {
                assert(decreases_to!(e => e->Dir_entries));
                assert(decreases_to!(entries => entries@));
            }
            EntryV::Dir { name: name@, entries: entries_view(entries@) }
        },
        Entry::File { name, content } => EntryV::File { name: name@, content: content@ },
    }
}

/// The views of a sequence of template entries.
pub open spec fn entries_view(es: Seq<Entry>) -> Seq<EntryV>
    decreases es, es.len(),
{
    if es.len() == 0 {
        Seq::empty()
    } else {
        proof {
            assert(es.drop_first() =~= es.subrange(1, es.len() as int));
            vstd::seq::axiom_seq_subrange_decreases(es, 1, es.len() as int);
        }
        seq![entry_view(es[0])] + entries_view(es.drop_first())
    }
}

impl DeepView for Entry {
    type V = EntryV;

    open spec fn deep_view(&self) -> EntryV {
        entry_view(*self)
    }
}

/// [`entries_view`] maps [`entry_view`] over the sequence.
pub proof fn lemma_entries_view_index(es: Seq<Entry>)
    ensures
        entries_view(es).len() == es.len(),
        forall|i: int| 0 <= i < es.len() ==> entries_view(es)[i] == entry_view(es[i]),
    decreases es.len(),
{
    if es.len() > 0 {
        lemma_entries_view_index(es.drop_first());
    }
}

/// The deep view of a vector of entries is [`entries_view`] of its view.
pub proof fn lemma_vec_entries_view(v: Vec<Entry>)
    ensures
        v.deep_view() == entries_view(v@),
{
    lemma_entries_view_index(v@);
    assert(v.deep_view() =~= entries_view(v@));
}

/// The name of an entry, the key the walk orders siblings by.
pub open spec fn entry_name(e: EntryV) -> Seq<char> {
    match e {
        EntryV::Dir { name, entries } => name,
        EntryV::File { name, content } => name,
    }
}

/// Lexicographic order on names by character code; for UTF-8 names this is
/// the order their byte encodings sort in.
pub open spec fn lex_lt(a: Seq<char>, b: Seq<char>) -> bool
    decreases a.len(),
{
    if b.len() == 0 {
        false
    } else if a.len() == 0 {
        true
    } else if a[0] == b[0] {
        lex_lt(a.drop_first(), b.drop_first())
    } else {
        (a[0] as int) < (b[0] as int)
    }
}

/// A common prefix does not decide the order.
proof fn lemma_lex_lt_skip(a: Seq<char>, b: Seq<char>, i: int)
    requires
        0 <= i <= a.len(),
        i <= b.len(),
        forall|j: int| 0 <= j < i ==> a[j] == b[j],
    ensures
        lex_lt(a, b) == lex_lt(a.skip(i), b.skip(i)),
    decreases i,
{
    if i == 0 {
        assert(a.skip(0) =~= a);
        assert(b.skip(0) =~= b);
    } else {
        assert(a.drop_first().skip(i - 1) =~= a.skip(i));
        assert(b.drop_first().skip(i - 1) =~= b.skip(i));
        lemma_lex_lt_skip(a.drop_first(), b.drop_first(), i - 1);
    }
}

/// The name of an entry.
pub fn entry_name_of(e: &Entry) -> (r: &String)
    ensures
        r@ == entry_name(e.deep_view()),
{
    match e {
        Entry::Dir { name, entries } => name,
        Entry::File { name, content } => name,
    }
}

/// Order two characters by code point.
fn char_lt(a: char, b: char) -> (r: bool)
    ensures
        r == ((a as int) < (b as int)),
{
    (a as u32) < (b as u32)
}

/// Exec counterpart of [`lex_lt`].
pub fn name_lt(a: &String, b: &String) -> (r: bool)
    ensures
        r == lex_lt(a@, b@),
{
    let ca = crate::tokenize::chars_of(a.as_str());
    let cb = crate::tokenize::chars_of(b.as_str());
    let mut i: usize = 0;
    loop
        invariant
            ca@ == a@,
            cb@ == b@,
            i <= a@.len(),
            i <= b@.len(),
            forall|j: int| 0 <= j < i ==> a@[j] == b@[j],
        ensures
            lex_lt(a@, b@) == lex_lt(a@.skip(i as int), b@.skip(i as int)),
            i <= a@.len() && i <= b@.len(),
            i < a@.len() && i < b@.len() ==> a@[i as int] != b@[i as int],
            i == a@.len() || i == b@.len() || a@[i as int] != b@[i as int],
        decreases a@.len() - i,
    {
        if i >= ca.len() || i >= cb.len() {
            proof {
                lemma_lex_lt_skip(a@, b@, i as int);
            }
            break ;
        }
        if ca[i] != cb[i] {
            proof {
                lemma_lex_lt_skip(a@, b@, i as int);
            }
            break ;
        }
        i = i + 1;
    }
    if i < ca.len() && i < cb.len() {
        let x = ca[i];
        let y = cb[i];
        proof {
            assert(a@.skip(i as int)[0] == a@[i as int]);
            assert(b@.skip(i as int)[0] == b@[i as int]);
        }
        char_lt(x, y)
    } else if i < cb.len() {
        proof {
            assert(a@.skip(i as int).len() == 0);
            assert(b@.skip(i as int).len() > 0);
        }
        true
    } else {
        proof {
            assert(b@.skip(i as int).len() == 0);
        }
        false
    }
}

/// The order is connected: two names are ordered one way or the other, or
/// they are the same name.
proof fn lemma_lex_lt_connected(a: Seq<char>, b: Seq<char>)
    ensures
        lex_lt(a, b) || lex_lt(b, a) || a == b,
    decreases a.len(),
{
    if a.len() == 0 && b.len() == 0 {
        assert(a =~= b);
    } else if a.len() > 0 && b.len() > 0 && a[0] == b[0] {
        lemma_lex_lt_connected(a.drop_first(), b.drop_first());
        if a.drop_first() == b.drop_first() {
            assert(a.drop_first().len() == a.len() - 1);
            assert(b.drop_first().len() == b.len() - 1);
            assert(a.len() == b.len());
            assert forall|i: int| 0 <= i < a.len() implies a[i] == b[i] by {
                if i > 0 {
                    assert(a[i] == a.drop_first()[i - 1]);
                    assert(b[i] == b.drop_first()[i - 1]);
                }
            }
            assert(a =~= b);
        }
    }
}

/// No name orders before itself.
proof fn lemma_lex_lt_irrefl(a: Seq<char>)
    ensures
        !lex_lt(a, a),
    decreases a.len(),
{
    if a.len() > 0 {
        lemma_lex_lt_irrefl(a.drop_first());
    }
}

/// The order is transitive.
proof fn lemma_lex_lt_trans(a: Seq<char>, b: Seq<char>, c: Seq<char>)
    requires
        lex_lt(a, b),
        lex_lt(b, c),
    ensures
        lex_lt(a, c),
    decreases a.len(),
{
    if a.len() > 0 && b.len() > 0 && c.len() > 0 {
        if a[0] == b[0] && b[0] == c[0] {
            lemma_lex_lt_trans(a.drop_first(), b.drop_first(), c.drop_first());
        }
    }
}

/// Insert an entry into a name-sorted sequence, after any entry of equal
/// name already there.
pub open spec fn sorted_insert(e: EntryV, s: Seq<EntryV>) -> Seq<EntryV>
    decreases s.len(),
{
    if s.len() == 0 {
        seq![e]
    } else if lex_lt(entry_name(e), entry_name(s[0])) {
        seq![e] + s
    } else {
        seq![s[0]] + sorted_insert(e, s.drop_first())
    }
}

/// Stable insertion sort of sibling entries by name.
pub open spec fn spec_sort(s: Seq<EntryV>) -> Seq<EntryV>
    decreases s.len(),
{
    if s.len() == 0 {
        s
    } else {
        sorted_insert(s.last(), spec_sort(s.drop_last()))
    }
}

/// Inserting at the first position whose entry's name orders after `e`'s
/// is what [`sorted_insert`] does.
proof fn lemma_sorted_insert_at(e: EntryV, s: Seq<EntryV>, j: int)
    requires
        0 <= j <= s.len(),
        forall|k: int| 0 <= k < j ==> !lex_lt(entry_name(e), entry_name(s[k])),
        j < s.len() ==> lex_lt(entry_name(e), entry_name(s[j])),
    ensures
        sorted_insert(e, s) == s.take(j) + seq![e] + s.skip(j),
    decreases j,
{
    if j == 0 {
        if s.len() == 0 {
            assert(seq![e] =~= s.take(0) + seq![e] + s.skip(0));
        } else {
            assert(seq![e] + s =~= s.take(0) + seq![e] + s.skip(0));
        }
    } else {
        let d = s.drop_first();
        assert forall|k: int| 0 <= k < j - 1 implies !lex_lt(entry_name(e), entry_name(d[k])) by {
            assert(d[k] == s[k + 1]);
        }
        lemma_sorted_insert_at(e, d, j - 1);
        assert(seq![s[0]] + (d.take(j - 1) + seq![e] + d.skip(j - 1)) =~= s.take(j) + seq![e]
            + s.skip(j));
    }
}

/// One name orders no later than another.
pub open spec fn lex_le(a: Seq<char>, b: Seq<char>) -> bool {
    !lex_lt(b, a)
}

/// Sibling entries in lexicographic order of their names.
pub open spec fn sorted_by_name(s: Seq<EntryV>) -> bool {
    forall|i: int, j: int|
        #![trigger s[i], s[j]]
        0 <= i <= j < s.len() ==> lex_le(entry_name(s[i]), entry_name(s[j]))
}

/// No two sibling entries carry the same name — what a real directory
/// listing guarantees.
pub open spec fn unique_names(s: Seq<EntryV>) -> bool {
    forall|a: int, b: int|
        #![trigger s[a], s[b]]
        0 <= a < b < s.len() ==> entry_name(s[a]) != entry_name(s[b])
}

/// A strict order one way gives order the other way round.
proof fn lemma_lt_implies_le(a: Seq<char>, b: Seq<char>)
    requires
        lex_lt(a, b),
    ensures
        lex_le(a, b),
{
    if lex_lt(b, a) {
        lemma_lex_lt_trans(a, b, a);
        lemma_lex_lt_irrefl(a);
    }
}

/// The reflexive order is transitive.
proof fn lemma_le_trans(a: Seq<char>, b: Seq<char>, c: Seq<char>)
    requires
        lex_le(a, b),
        lex_le(b, c),
    ensures
        lex_le(a, c),
{
    if lex_lt(c, a) {
        lemma_lex_lt_connected(a, b);
        if lex_lt(a, b) {
            lemma_lex_lt_trans(c, a, b);
        }
    }
}

/// Every element of an insertion is the inserted entry or one of the old
/// ones.
proof fn lemma_sorted_insert_membership(e: EntryV, s: Seq<EntryV>)
    ensures
        forall|j: int|
            0 <= j < sorted_insert(e, s).len() ==> (#[trigger] sorted_insert(e, s)[j]) == e
                || s.contains(sorted_insert(e, s)[j]),
    decreases s.len(),
{
    let t = sorted_insert(e, s);
    if s.len() == 0 {
    } else if lex_lt(entry_name(e), entry_name(s[0])) {
        assert forall|j: int| 0 <= j < t.len() implies (#[trigger] t[j]) == e || s.contains(
            t[j],
        ) by {
            if j > 0 {
                assert(t[j] == s[j - 1]);
            }
        }
    } else {
        let sub = s.drop_first();
        let x = sorted_insert(e, sub);
        lemma_sorted_insert_membership(e, sub);
        assert forall|j: int| 0 <= j < t.len() implies (#[trigger] t[j]) == e || s.contains(
            t[j],
        ) by {
            if j == 0 {
                assert(t[0] == s[0]);
            } else {
                assert(t[j] == x[j - 1]);
                if x[j - 1] != e {
                    let k = choose|k: int| 0 <= k < sub.len() && sub[k] == x[j - 1];
                    assert(s[k + 1] == x[j - 1]);
                }
            }
        }
    }
}

/// Insertion keeps the sequence sorted.
proof fn lemma_sorted_insert_sorted(e: EntryV, s: Seq<EntryV>)
    requires
        sorted_by_name(s),
    ensures
        sorted_by_name(sorted_insert(e, s)),
    decreases s.len(),
{
    let t = sorted_insert(e, s);
    if s.len() == 0 {
        assert forall|i: int, j: int|
            #![trigger t[i], t[j]]
            0 <= i <= j < t.len() implies lex_le(entry_name(t[i]), entry_name(t[j])) by {
            lemma_lex_lt_irrefl(entry_name(e));
        }
    } else if lex_lt(entry_name(e), entry_name(s[0])) {
        assert forall|i: int, j: int|
            #![trigger t[i], t[j]]
            0 <= i <= j < t.len() implies lex_le(entry_name(t[i]), entry_name(t[j])) by {
            if i == 0 && j == 0 {
                lemma_lex_lt_irrefl(entry_name(e));
            } else if i == 0 {
                assert(t[j] == s[j - 1]);
                lemma_lt_implies_le(entry_name(e), entry_name(s[0]));
                lemma_le_trans(entry_name(e), entry_name(s[0]), entry_name(s[j - 1]));
            } else {
                assert(t[i] == s[i - 1]);
                assert(t[j] == s[j - 1]);
            }
        }
    } else {
        let sub = s.drop_first();
        let x = sorted_insert(e, sub);
        assert forall|i: int, j: int|
            #![trigger sub[i], sub[j]]
            0 <= i <= j < sub.len() implies lex_le(entry_name(sub[i]), entry_name(sub[j])) by {
            assert(sub[i] == s[i + 1]);
            assert(sub[j] == s[j + 1]);
        }
        lemma_sorted_insert_sorted(e, sub);
        lemma_sorted_insert_membership(e, sub);
        assert forall|i: int, j: int|
            #![trigger t[i], t[j]]
            0 <= i <= j < t.len() implies lex_le(entry_name(t[i]), entry_name(t[j])) by {
            if i == 0 && j == 0 {
                lemma_lex_lt_irrefl(entry_name(s[0]));
            } else if i == 0 {
                assert(t[j] == x[j - 1]);
                if x[j - 1] == e {
                    assert(lex_le(entry_name(s[0]), entry_name(e)));
                } else {
                    let k = choose|k: int| 0 <= k < sub.len() && sub[k] == x[j - 1];
                    assert(sub[k] == s[k + 1]);
                    assert(lex_le(entry_name(s[0]), entry_name(s[k + 1])));
                }
            } else {
                assert(t[i] == x[i - 1]);
                assert(t[j] == x[j - 1]);
            }
        }
    }
}

/// Sorting sorts.
proof fn lemma_sort_sorted(s: Seq<EntryV>)
    ensures
        sorted_by_name(spec_sort(s)),
    decreases s.len(),
{
    if s.len() > 0 {
        lemma_sort_sorted(s.drop_last());
        lemma_sorted_insert_sorted(s.last(), spec_sort(s.drop_last()));
    }
}

/// Prepending one entry inserts it into the multiset of entries.
proof fn lemma_cons_to_multiset(x: EntryV, t: Seq<EntryV>)
    ensures
        (seq![x] + t).to_multiset() == t.to_multiset().insert(x),
{
    let u = seq![x] + t;
    assert(u.remove(0) =~= t);
    assert(u[0] == x);
    assert(u.remove(0).to_multiset() =~= u.to_multiset().remove(x));
    assert(u.contains(x));
    assert(u.to_multiset().count(x) > 0);
    assert(u.to_multiset() =~= t.to_multiset().insert(x)) by {
        assert forall|a: EntryV| u.to_multiset().count(a) == t.to_multiset().insert(x).count(
            a,
        ) by {
            assert(t.to_multiset().count(a) == u.to_multiset().remove(x).count(a));
        }
    }
}

/// Insertion adds exactly the inserted entry to the multiset of entries.
proof fn lemma_sorted_insert_multiset(e: EntryV, s: Seq<EntryV>)
    ensures
        sorted_insert(e, s).to_multiset() == s.to_multiset().insert(e),
    decreases s.len(),
{
    if s.len() == 0 {
        assert(sorted_insert(e, s) =~= s.push(e));
        assert(s.push(e).to_multiset() =~= s.to_multiset().insert(e));
    } else if lex_lt(entry_name(e), entry_name(s[0])) {
        lemma_cons_to_multiset(e, s);
    } else {
        let sub = s.drop_first();
        lemma_sorted_insert_multiset(e, sub);
        lemma_cons_to_multiset(s[0], sorted_insert(e, sub));
        lemma_cons_to_multiset(s[0], sub);
        assert(s =~= seq![s[0]] + sub);
        assert(sub.to_multiset().insert(e).insert(s[0]) =~= sub.to_multiset().insert(
            s[0],
        ).insert(e));
    }
}

/// Sorting keeps exactly the entries.
proof fn lemma_sort_multiset(s: Seq<EntryV>)
    ensures
        spec_sort(s).to_multiset() == s.to_multiset(),
    decreases s.len(),
{
    if s.len() > 0 {
        lemma_sort_multiset(s.drop_last());
        lemma_sorted_insert_multiset(s.last(), spec_sort(s.drop_last()));
        assert(s =~= s.drop_last().push(s.last()));
        assert(s.drop_last().push(s.last()).to_multiset() =~= s.drop_last().to_multiset().insert(
            s.last(),
        ));
    }
}

/// With unique names no entry occurs twice.
proof fn lemma_unique_names_count(s: Seq<EntryV>, x: EntryV)
    requires
        unique_names(s),
    ensures
        s.to_multiset().count(x) <= 1,
    decreases s.len(),
{
    if s.len() > 0 {
        let sub = s.drop_first();
        assert forall|a: int, b: int|
            #![trigger sub[a], sub[b]]
            0 <= a < b < sub.len() implies entry_name(sub[a]) != entry_name(sub[b]) by {
            assert(sub[a] == s[a + 1]);
            assert(sub[b] == s[b + 1]);
        }
        lemma_unique_names_count(sub, x);
        assert(s.remove(0) =~= sub);
        assert(s.remove(0).to_multiset() =~= s.to_multiset().remove(s[0]));
        if x == s[0] {
            if sub.to_multiset().count(x) > 0 {
                let k = choose|k: int| 0 <= k < sub.len() && sub[k] == x;
                assert(sub[k] == s[k + 1]);
                assert(entry_name(s[0]) != entry_name(s[k + 1]));
                assert(false);
            }
            assert(s.to_multiset().count(x) == sub.to_multiset().count(x) + 1);
        } else {
            assert(s.to_multiset().count(x) == sub.to_multiset().count(x));
        }
    } else {
        assert(s.to_multiset().count(x) == 0) by {
            if s.to_multiset().count(x) > 0 {
                assert(s.contains(x));
            }
        }
    }
}

/// Two name-sorted sequences with unique names and the same entries are the
/// same sequence.
proof fn lemma_sorted_unique_multiset_eq(p: Seq<EntryV>, q: Seq<EntryV>)
    requires
        sorted_by_name(p),
        sorted_by_name(q),
        unique_names(p),
        p.to_multiset() == q.to_multiset(),
    ensures
        p == q,
    decreases p.len(),
{
    assert(p.len() == p.to_multiset().len());
    assert(q.len() == q.to_multiset().len());
    if p.len() == 0 {
        assert(p =~= q);
    } else {
        assert(p.contains(p[0]));
        assert(q.to_multiset().count(p[0]) > 0);
        assert(q.contains(p[0]));
        let i = choose|i: int| 0 <= i < q.len() && q[i] == p[0];
        assert(q.contains(q[0]));
        assert(p.to_multiset().count(q[0]) > 0);
        assert(p.contains(q[0]));
        let j = choose|j: int| 0 <= j < p.len() && p[j] == q[0];
        assert(lex_le(entry_name(q[0]), entry_name(q[i])));
        assert(lex_le(entry_name(p[0]), entry_name(p[j])));
        lemma_lex_lt_connected(entry_name(p[0]), entry_name(q[0]));
        assert(entry_name(p[0]) == entry_name(q[0]));
        if j != 0 {
            assert(entry_name(p[0]) != entry_name(p[j]));
            assert(false);
        }
        assert(q[0] == p[0]);
        let ps = p.drop_first();
        let qs = q.drop_first();
        assert(p.remove(0) =~= ps);
        assert(q.remove(0) =~= qs);
        assert(p.remove(0).to_multiset() =~= p.to_multiset().remove(p[0]));
        assert(q.remove(0).to_multiset() =~= q.to_multiset().remove(q[0]));
        assert(ps.to_multiset() == qs.to_multiset());
        assert forall|a: int, b: int|
            #![trigger ps[a], ps[b]]
            0 <= a <= b < ps.len() implies lex_le(entry_name(ps[a]), entry_name(ps[b])) by {
            assert(ps[a] == p[a + 1]);
            assert(ps[b] == p[b + 1]);
        }
        assert forall|a: int, b: int|
            #![trigger qs[a], qs[b]]
            0 <= a <= b < qs.len() implies lex_le(entry_name(qs[a]), entry_name(qs[b])) by {
            assert(qs[a] == q[a + 1]);
            assert(qs[b] == q[b + 1]);
        }
        assert forall|a: int, b: int|
            #![trigger ps[a], ps[b]]
            0 <= a < b < ps.len() implies entry_name(ps[a]) != entry_name(ps[b]) by {
            assert(ps[a] == p[a + 1]);
            assert(ps[b] == p[b + 1]);
        }
        lemma_sorted_unique_multiset_eq(ps, qs);
        assert forall|k: int| 0 <= k < p.len() implies p[k] == q[k] by {
            if k > 0 {
                assert(p[k] == ps[k - 1]);
                assert(q[k] == qs[k - 1]);
            }
        }
        assert(p =~= q);
    }
}

/// The names in one real directory are unique, so sorting the same entries
/// always gives the same sequence, however the directory was listed.
proof fn lemma_sort_of_permutation(p: Seq<EntryV>, q: Seq<EntryV>)
    requires
        p.to_multiset() == q.to_multiset(),
        unique_names(p),
    ensures
        spec_sort(p) == spec_sort(q),
{
    lemma_sort_sorted(p);
    lemma_sort_sorted(q);
    lemma_sort_multiset(p);
    lemma_sort_multiset(q);
    assert forall|a: int, b: int|
        #![trigger spec_sort(p)[a], spec_sort(p)[b]]
        0 <= a < b < spec_sort(p).len() implies entry_name(spec_sort(p)[a]) != entry_name(
        spec_sort(p)[b],
    ) by {
        let x = spec_sort(p)[a];
        let y = spec_sort(p)[b];
        if x == y {
            lemma_dup_index_count(spec_sort(p), a, b);
            lemma_unique_names_count(p, x);
            assert(false);
        } else if entry_name(x) == entry_name(y) {
            assert(spec_sort(p).contains(x));
            assert(spec_sort(p).contains(y));
            assert(p.to_multiset().count(x) > 0);
            assert(p.to_multiset().count(y) > 0);
            assert(p.contains(x));
            assert(p.contains(y));
            let ix = choose|ix: int| 0 <= ix < p.len() && p[ix] == x;
            let iy = choose|iy: int| 0 <= iy < p.len() && p[iy] == y;
            assert(ix != iy);
            assert(false);
        }
    }
    lemma_sorted_unique_multiset_eq(spec_sort(p), spec_sort(q));
}

/// An entry standing at two positions is counted at least twice.
proof fn lemma_dup_index_count(s: Seq<EntryV>, a: int, b: int)
    requires
        0 <= a < b < s.len(),
        s[a] == s[b],
    ensures
        s.to_multiset().count(s[a]) >= 2,
    decreases s.len(),
{
    let sub = s.drop_first();
    assert(s.remove(0) =~= sub);
    assert(s.remove(0).to_multiset() =~= s.to_multiset().remove(s[0]));
    if a == 0 {
        assert(sub[b - 1] == s[b]);
        assert(sub.contains(s[b]));
        assert(sub.to_multiset().count(s[0]) > 0);
        assert(s.contains(s[0]));
        assert(s.to_multiset().count(s[0]) == sub.to_multiset().count(s[0]) + 1);
    } else {
        assert(sub[a - 1] == s[a]);
        assert(sub[b - 1] == s[b]);
        lemma_dup_index_count(sub, a - 1, b - 1);
        if s[a] == s[0] {
            assert(s.to_multiset().count(s[a]) == sub.to_multiset().count(s[a]) + 1);
        } else {
            assert(s.to_multiset().count(s[a]) == sub.to_multiset().count(s[a]));
        }
    }
}

/// Determinism of the walk: the entries of one directory carry unique
/// names, so however the listing handed them over, the walk visits them in
/// the one lexicographic order and plans the same output files. This holds
/// at every directory level alike, since each level sorts its own entries
/// the same way.
pub proof fn lemma_walk_order_independent(
    p: Seq<EntryV>,
    q: Seq<EntryV>,
    dirs: Seq<SegmentV>,
    dd: Seq<char>,
    m: Map<Seq<char>, Seq<char>>,
)
    requires
        p.to_multiset() == q.to_multiset(),
        unique_names(p),
    ensures
        walk_entries(spec_sort(p), dirs, dd, m) == walk_entries(spec_sort(q), dirs, dd, m),
{
    lemma_sort_of_permutation(p, q);
}

/// The size of a subtree, counting every entry.
pub open spec fn entry_size(e: EntryV) -> nat
    decreases e,
{
    match e {
        EntryV::Dir { name, entries } => 1 + entries_size(entries),
        EntryV::File { name, content } => 1,
    }
}

/// The total size of a forest of subtrees.
pub open spec fn entries_size(es: Seq<EntryV>) -> nat
    decreases es,
{
    if es.len() == 0 {
        0nat
    } else {
        entry_size(es[0]) + entries_size(es.drop_first())
    }
}

/// Sizes add at the back as well as at the front.
pub proof fn lemma_entries_size_snoc(es: Seq<EntryV>)
    requires
        es.len() > 0,
    ensures
        entries_size(es) == entries_size(es.drop_last()) + entry_size(es.last()),
    decreases es.len(),
{
    if es.len() == 1 {
        assert(es.drop_last() =~= Seq::<EntryV>::empty());
        assert(es.drop_first() =~= Seq::<EntryV>::empty());
    } else {
        lemma_entries_size_snoc(es.drop_first());
        assert(es.drop_first().drop_last() =~= es.drop_last().drop_first());
        assert(es.drop_first().last() == es.last());
        assert(es.drop_last()[0] == es[0]);
    }
}

/// Insertion preserves the total size.
pub proof fn lemma_sorted_insert_size(e: EntryV, s: Seq<EntryV>)
    ensures
        entries_size(sorted_insert(e, s)) == entry_size(e) + entries_size(s),
    decreases s.len(),
{
    if s.len() == 0 {
        let t = seq![e];
        assert(sorted_insert(e, s) == t);
        assert(t[0] == e);
        assert(t.drop_first() =~= Seq::<EntryV>::empty());
        assert(entries_size(t) == entry_size(e) + entries_size(Seq::<EntryV>::empty()));
    } else if lex_lt(entry_name(e), entry_name(s[0])) {
        let t = seq![e] + s;
        assert(sorted_insert(e, s) == t);
        assert(t[0] == e);
        assert(t.drop_first() =~= s);
        assert(entries_size(t) == entry_size(e) + entries_size(s));
    } else {
        lemma_sorted_insert_size(e, s.drop_first());
        let t = seq![s[0]] + sorted_insert(e, s.drop_first());
        assert(sorted_insert(e, s) == t);
        assert(t[0] == s[0]);
        assert(t.drop_first() =~= sorted_insert(e, s.drop_first()));
        assert(entries_size(t) == entry_size(s[0]) + entries_size(sorted_insert(e, s.drop_first())));
        assert(entries_size(s) == entry_size(s[0]) + entries_size(s.drop_first()));
    }
}

/// Sorting preserves the total size.
pub proof fn lemma_sort_size(s: Seq<EntryV>)
    ensures
        entries_size(spec_sort(s)) == entries_size(s),
    decreases s.len(),
{
    if s.len() > 0 {
        lemma_sort_size(s.drop_last());
        lemma_sorted_insert_size(s.last(), spec_sort(s.drop_last()));
        lemma_entries_size_snoc(s);
    }
}

/// Walk one template entry: a file becomes one planned output file; a
/// directory is recursed into, its children sorted by name, its own name
/// joined onto the path.
pub open spec fn walk_entry(
    e: EntryV,
    dirs: Seq<SegmentV>,
    dd: Seq<char>,
    m: Map<Seq<char>, Seq<char>>,
) -> Result<Seq<OutputFileV>, ErrV>
    decreases entry_size(e), 0int,
{
    match e {
        EntryV::File { name, content } => match spec_handle_file(
            dirs,
            dd,
            name,
            Some(content),
            m,
        ) {
            Ok(f) => Ok(seq![f]),
            Err(v) => Err(v),
        },
        EntryV::Dir { name, entries } => {
            proof {
                lemma_sort_size(entries);
            }
            walk_entries(
                spec_sort(entries),
                dirs.push(SegmentV::Name(name)),
                spec_join(dd, name),
                m,
            )
        },
    }
}

/// A copy of the path segments seen so far.
fn clone_segments(v: &Vec<Segment>) -> (r: Vec<Segment>)
    ensures
        r.deep_view() == v.deep_view(),
{
    let mut r: Vec<Segment> = Vec::new();
    let mut i: usize = 0;
    while i < v.len()
        invariant
            i <= v@.len(),
            r@.len() == i,
            r.deep_view() == v.deep_view().take(i as int),
        decreases v@.len() - i,
    {
        let ghost r0 = r@;
        let ghost rd0 = r.deep_view();
        match &v[i] {
            Segment::Name(s) => {
                r.push(Segment::Name(s.clone()));
            },
            Segment::NotUtf8 => {
                r.push(Segment::NotUtf8);
            },
        }
        proof {
            assert(r@ == r0.push(r@.last()));
            assert(r@.last().deep_view() == v@[i as int].deep_view());
            assert forall|k: int| 0 <= k < i + 1 implies r.deep_view()[k] == v.deep_view().take(
                i + 1,
            )[k] by {
                assert(r.deep_view()[k] == r@[k].deep_view());
                assert(v.deep_view().take(i + 1)[k] == v@[k].deep_view());
                if k < i as int {
                    assert(r@[k] == r0[k]);
                    assert(rd0[k] == r0[k].deep_view());
                    assert(rd0[k] == v.deep_view().take(i as int)[k]);
                    assert(v.deep_view().take(i as int)[k] == v@[k].deep_view());
                } else {
                    assert(r@[k] == r@.last());
                }
            }
            assert(r.deep_view() =~= v.deep_view().take(i + 1));
        }
        i = i + 1;
    }
    proof {
        assert(v.deep_view().take(v@.len() as int) =~= v.deep_view());
    }
    r
}

/// Sort sibling entries by name, stably: the lexicographic order makes the
/// walk, and with it the whole output, independent of the order the entries
/// were listed in.
pub fn sort_entries(entries: Vec<Entry>) -> (r: Vec<Entry>)
    ensures
        r.deep_view() == spec_sort(entries.deep_view()),
{
    let ghost dv = entries.deep_view();
    let mut rest = entries;
    let mut sorted: Vec<Entry> = Vec::new();
    proof {
        assert(dv.take(0) =~= Seq::<EntryV>::empty());
        assert(sorted.deep_view() =~= Seq::<EntryV>::empty());
        assert(rest.deep_view() =~= dv.skip(0));
    }
    loop
        invariant
            rest@.len() <= dv.len(),
            rest.deep_view() == dv.skip(dv.len() - rest@.len()),
            sorted.deep_view() == spec_sort(dv.take(dv.len() - rest@.len())),
        ensures
            sorted.deep_view() == spec_sort(dv),
        decreases rest@.len(),
    {
        let ghost p = dv.len() - rest@.len();
        if rest.len() == 0 {
            proof {
                assert(dv.take(dv.len() as int) =~= dv);
            }
            break ;
        }
        let ghost rv = rest.deep_view();
        let ghost rvec = rest@;
        let e = rest.remove(0);
        let ghost ev = e.deep_view();
        proof {
            assert(ev == rv[0]);
            assert(ev == dv[p]);
            assert(rest@ =~= rvec.drop_first());
            assert forall|k: int| 0 <= k < rest@.len() implies rest.deep_view()[k] == dv.skip(
                p + 1,
            )[k] by {
                assert(rest.deep_view()[k] == rest@[k].deep_view());
                assert(rest@[k] == rvec[k + 1]);
                assert(rv[k + 1] == rvec[k + 1].deep_view());
                assert(rv[k + 1] == dv.skip(p)[k + 1]);
                assert(dv.skip(p)[k + 1] == dv[p + 1 + k]);
                assert(dv.skip(p + 1)[k] == dv[p + 1 + k]);
            }
            assert(rest.deep_view() =~= dv.skip(p + 1));
        }
        // find the first already-sorted entry whose name orders after `e`'s
        let ghost sv = sorted.deep_view();
        let mut j: usize = 0;
        while j < sorted.len() && !name_lt(entry_name_of(&e), entry_name_of(&sorted[j]))
            invariant
                j <= sorted@.len(),
                sv == sorted.deep_view(),
                ev == e.deep_view(),
                forall|k: int| 0 <= k < j ==> !lex_lt(entry_name(ev), entry_name(sv[k])),
            decreases sorted@.len() - j,
        {
            j = j + 1;
        }
        sorted.insert(j, e);
        proof {
            lemma_sorted_insert_at(ev, sv, j as int);
            assert(sorted.deep_view() =~= sv.take(j as int) + seq![ev] + sv.skip(j as int));
            assert(dv.take(p + 1).drop_last() =~= dv.take(p));
            assert(dv.take(p + 1).last() == dv[p]);
        }
    }
    sorted
}

/// Walk a name-sorted forest of template entries, depth-first, collecting
/// the planned output files in walk order; the first failure aborts.
pub open spec fn walk_entries(
    es: Seq<EntryV>,
    dirs: Seq<SegmentV>,
    dd: Seq<char>,
    m: Map<Seq<char>, Seq<char>>,
) -> Result<Seq<OutputFileV>, ErrV>
    decreases entries_size(es), es.len(),
{
    if es.len() == 0 {
        Ok(Seq::empty())
    } else {
        match walk_entry(es[0], dirs, dd, m) {
            Err(e) => Err(e),
            Ok(outs) => match walk_entries(es.drop_first(), dirs, dd, m) {
                Err(e) => Err(e),
                Ok(rest) => Ok(outs + rest),
            },
        }
    }
}

/// A planned output file whose rendered name and rendered directory
/// segments are all free of the path separator.
pub open spec fn sep_free(f: OutputFileV) -> bool {
    &&& !has_sep(f.name)
    &&& forall|j: int| 0 <= j < f.dirs.len() ==> !has_sep(#[trigger] f.dirs[j])
}

/// Rendered directory segments that pass validation contain no separator.
proof fn lemma_handle_dirs_sep_free(
    dirs: Seq<SegmentV>,
    tmpl: Seq<char>,
    dd: Seq<char>,
    m: Map<Seq<char>, Seq<char>>,
)
    ensures
        spec_handle_dirs(dirs, tmpl, dd, m) matches Ok(rd) ==> forall|j: int|
            0 <= j < rd.len() ==> !has_sep(#[trigger] rd[j]),
    decreases dirs.len(),
{
    if dirs.len() > 0 {
        lemma_handle_dirs_sep_free(dirs.drop_last(), tmpl, dd, m);
    }
}

/// A planned output file has no separator anywhere in its rendered path.
proof fn lemma_handle_file_sep_free(
    dirs: Seq<SegmentV>,
    dd: Seq<char>,
    name: Seq<char>,
    content: Option<Seq<char>>,
    m: Map<Seq<char>, Seq<char>>,
)
    ensures
        spec_handle_file(dirs, dd, name, content, m) matches Ok(f) ==> sep_free(f),
{
    lemma_handle_dirs_sep_free(dirs, spec_join(dd, name), dd, m);
}

/// The segments checked before position `k` — the ones inner to it, since
/// ancestors are checked innermost first — all decode, render, and stay
/// free of the separator.
pub open spec fn segments_pass_after(dirs: Seq<SegmentV>, k: int, m: Map<Seq<char>, Seq<char>>) -> bool {
    forall|j: int|
        k < j < dirs.len() ==> {
            &&& (#[trigger] dirs[j]) is Name
            &&& spec_render(spec_tokenize(dirs[j]->Name_0), m) is Ok
            &&& !has_sep(spec_render(spec_tokenize(dirs[j]->Name_0), m)->Ok_0)
        }
}

/// Separator rejection among the directory segments: the first rendered
/// segment in evaluation order (innermost first) that holds a separator
/// decides the failure, with the template-relative path and the offending
/// rendered segment in the payload.
pub proof fn lemma_handle_dirs_first_separator(
    dirs: Seq<SegmentV>,
    tmpl: Seq<char>,
    dd: Seq<char>,
    m: Map<Seq<char>, Seq<char>>,
    k: int,
)
    requires
        0 <= k < dirs.len(),
        dirs[k] is Name,
        spec_render(spec_tokenize(dirs[k]->Name_0), m) is Ok,
        has_sep(spec_render(spec_tokenize(dirs[k]->Name_0), m)->Ok_0),
        segments_pass_after(dirs, k, m),
    ensures
        spec_handle_dirs(dirs, tmpl, dd, m) == Err::<Seq<Seq<char>>, ErrV>(
            ErrV::Separator {
                tmpl,
                rendered: spec_join(dd, spec_render(spec_tokenize(dirs[k]->Name_0), m)->Ok_0),
            },
        ),
    decreases dirs.len(),
{
    if k < dirs.len() - 1 {
        let sub = dirs.drop_last();
        assert(sub[k] == dirs[k]);
        assert forall|j: int| k < j < sub.len() implies {
            &&& (#[trigger] sub[j]) is Name
            &&& spec_render(spec_tokenize(sub[j]->Name_0), m) is Ok
            &&& !has_sep(spec_render(spec_tokenize(sub[j]->Name_0), m)->Ok_0)
        } by {
            assert(sub[j] == dirs[j]);
        }
        lemma_handle_dirs_first_separator(sub, tmpl, dd, m, k);
    }
}

/// Unresolved variables among the directory segments: the first segment in
/// evaluation order (innermost first) whose rendering fails decides the
/// failure, naming exactly the variable the renderer reported.
pub proof fn lemma_handle_dirs_first_missing(
    dirs: Seq<SegmentV>,
    tmpl: Seq<char>,
    dd: Seq<char>,
    m: Map<Seq<char>, Seq<char>>,
    k: int,
)
    requires
        0 <= k < dirs.len(),
        dirs[k] is Name,
        spec_render(spec_tokenize(dirs[k]->Name_0), m) is Err,
        segments_pass_after(dirs, k, m),
    ensures
        spec_handle_dirs(dirs, tmpl, dd, m) == Err::<Seq<Seq<char>>, ErrV>(
            ErrV::NotFound(spec_render(spec_tokenize(dirs[k]->Name_0), m)->Err_0),
        ),
    decreases dirs.len(),
{
    if k < dirs.len() - 1 {
        let sub = dirs.drop_last();
        assert(sub[k] == dirs[k]);
        assert forall|j: int| k < j < sub.len() implies {
            &&& (#[trigger] sub[j]) is Name
            &&& spec_render(spec_tokenize(sub[j]->Name_0), m) is Ok
            &&& !has_sep(spec_render(spec_tokenize(sub[j]->Name_0), m)->Ok_0)
        } by {
            assert(sub[j] == dirs[j]);
        }
        lemma_handle_dirs_first_missing(sub, tmpl, dd, m, k);
    }
}

/// Separator rejection for one file, name case: a file name that renders
/// onto a separator aborts before any segment of its parent path is even
/// looked at.
pub proof fn lemma_handle_file_name_separator(
    dirs: Seq<SegmentV>,
    dd: Seq<char>,
    name: Seq<char>,
    content: Option<Seq<char>>,
    m: Map<Seq<char>, Seq<char>>,
)
    requires
        spec_render(spec_tokenize(name), m) is Ok,
        has_sep(spec_render(spec_tokenize(name), m)->Ok_0),
    ensures
        spec_handle_file(dirs, dd, name, content, m) == Err::<OutputFileV, ErrV>(
            ErrV::Separator {
                tmpl: spec_join(dd, name),
                rendered: spec_join(dd, spec_render(spec_tokenize(name), m)->Ok_0),
            },
        ),
{
}

/// Separator rejection for one file, directory case: with a clean file
/// name, the first offending rendered directory segment (innermost first)
/// decides, and no output file is planned.
pub proof fn lemma_handle_file_dir_separator(
    dirs: Seq<SegmentV>,
    dd: Seq<char>,
    name: Seq<char>,
    content: Option<Seq<char>>,
    m: Map<Seq<char>, Seq<char>>,
    k: int,
)
    requires
        spec_render(spec_tokenize(name), m) is Ok,
        !has_sep(spec_render(spec_tokenize(name), m)->Ok_0),
        0 <= k < dirs.len(),
        dirs[k] is Name,
        spec_render(spec_tokenize(dirs[k]->Name_0), m) is Ok,
        has_sep(spec_render(spec_tokenize(dirs[k]->Name_0), m)->Ok_0),
        segments_pass_after(dirs, k, m),
    ensures
        spec_handle_file(dirs, dd, name, content, m) == Err::<OutputFileV, ErrV>(
            ErrV::Separator {
                tmpl: spec_join(dd, name),
                rendered: spec_join(dd, spec_render(spec_tokenize(dirs[k]->Name_0), m)->Ok_0),
            },
        ),
{
    lemma_handle_dirs_first_separator(dirs, spec_join(dd, name), dd, m, k);
}

/// Unresolved variable for one file, directory case: with a clean file
/// name, the first directory segment (innermost first) whose rendering
/// fails names the variable, and no output file is planned.
pub proof fn lemma_handle_file_dir_missing(
    dirs: Seq<SegmentV>,
    dd: Seq<char>,
    name: Seq<char>,
    content: Option<Seq<char>>,
    m: Map<Seq<char>, Seq<char>>,
    k: int,
)
    requires
        spec_render(spec_tokenize(name), m) is Ok,
        !has_sep(spec_render(spec_tokenize(name), m)->Ok_0),
        0 <= k < dirs.len(),
        dirs[k] is Name,
        spec_render(spec_tokenize(dirs[k]->Name_0), m) is Err,
        segments_pass_after(dirs, k, m),
    ensures
        spec_handle_file(dirs, dd, name, content, m) == Err::<OutputFileV, ErrV>(
            ErrV::NotFound(spec_render(spec_tokenize(dirs[k]->Name_0), m)->Err_0),
        ),
{
    lemma_handle_dirs_first_missing(dirs, spec_join(dd, name), dd, m, k);
}

/// Separator rejection: every output file a successful walk of one entry
/// plans lies inside the intended subtree — no rendered name or directory
/// segment contains the path separator.
pub proof fn lemma_walk_entry_sep_free(
    e: EntryV,
    dirs: Seq<SegmentV>,
    dd: Seq<char>,
    m: Map<Seq<char>, Seq<char>>,
)
    ensures
        walk_entry(e, dirs, dd, m) matches Ok(fs) ==> forall|i: int|
            0 <= i < fs.len() ==> sep_free(#[trigger] fs[i]),
    decreases entry_size(e), 0int,
{
    match e {
        EntryV::File { name, content } => {
            lemma_handle_file_sep_free(dirs, dd, name, Some(content), m);
        },
        EntryV::Dir { name, entries } => {
            lemma_sort_size(entries);
            lemma_walk_entries_sep_free(
                spec_sort(entries),
                dirs.push(SegmentV::Name(name)),
                spec_join(dd, name),
                m,
            );
        },
    }
}

/// Separator rejection over a whole walk: a successful walk plans only
/// output files free of the path separator, so nothing can be written
/// outside the output root's subtree.
pub proof fn lemma_walk_entries_sep_free(
    es: Seq<EntryV>,
    dirs: Seq<SegmentV>,
    dd: Seq<char>,
    m: Map<Seq<char>, Seq<char>>,
)
    ensures
        walk_entries(es, dirs, dd, m) matches Ok(fs) ==> forall|i: int|
            0 <= i < fs.len() ==> sep_free(#[trigger] fs[i]),
    decreases entries_size(es), es.len(),
{
    if es.len() > 0 {
        lemma_walk_entry_sep_free(es[0], dirs, dd, m);
        lemma_walk_entries_sep_free(es.drop_first(), dirs, dd, m);
        if walk_entries(es, dirs, dd, m) is Ok {
            let outs = walk_entry(es[0], dirs, dd, m)->Ok_0;
            let rest = walk_entries(es.drop_first(), dirs, dd, m)->Ok_0;
            assert forall|i: int| 0 <= i < (outs + rest).len() implies sep_free(
                #[trigger] (outs + rest)[i],
            ) by {
                if i < outs.len() {
                    assert((outs + rest)[i] == outs[i]);
                } else {
                    assert((outs + rest)[i] == rest[i - outs.len()]);
                }
            }
        }
    }
}

/// Walk the entries of one template directory against the dictionary,
/// depth-first and in lexicographic order of names, and plan the output
/// files. `dirs` holds the template-relative path of this directory,
/// outermost first, and `dir_display` displays it; the top-level call hands
/// in the template root's entries and empty path and display.
pub fn handle_directory(
    entries: Vec<Entry>,
    dirs: &Vec<Segment>,
    dir_display: &String,
    data: &Dict,
) -> (r: Result<Vec<OutputFile>, Error>)
    requires
        data.wf(),
    ensures
        match walk_entries(spec_sort(entries.deep_view()), dirs.deep_view(), dir_display@, data@) {
            Ok(fs) => r matches Ok(v) && v.deep_view() == fs,
            Err(e) => r matches Err(err) && err_matches(err, e),
        },
    decreases entries_size(entries.deep_view()),
{
    let ghost dv0 = entries.deep_view();
    let ghost total = spec_sort(dv0);
    let ghost m = data@;
    let ghost dirs_v = dirs.deep_view();
    let ghost dd = dir_display@;
    proof {
        lemma_sort_size(dv0);
    }
    let mut sorted = sort_entries(entries);
    let mut out: Vec<OutputFile> = Vec::new();
    proof {
        assert(out.deep_view() =~= Seq::<OutputFileV>::empty());
        if walk_entries(total, dirs_v, dd, m) is Ok {
            assert(out.deep_view() + walk_entries(total, dirs_v, dd, m)->Ok_0 =~= walk_entries(
                total,
                dirs_v,
                dd,
                m,
            )->Ok_0);
        }
    }
    loop
        invariant
            data.wf(),
            m == data@,
            dirs_v == dirs.deep_view(),
            dd == dir_display@,
            dv0 == entries.deep_view(),
            total == spec_sort(dv0),
            entries_size(sorted.deep_view()) <= entries_size(dv0),
            walk_entries(total, dirs_v, dd, m) == (match walk_entries(
                sorted.deep_view(),
                dirs_v,
                dd,
                m,
            ) {
                Ok(rest) => Ok::<Seq<OutputFileV>, ErrV>(out.deep_view() + rest),
                Err(e) => Err::<Seq<OutputFileV>, ErrV>(e),
            }),
        ensures
            walk_entries(total, dirs_v, dd, m) == Ok::<Seq<OutputFileV>, ErrV>(out.deep_view()),
        decreases sorted@.len(),
    {
        if sorted.len() == 0 {
            proof {
                assert(sorted.deep_view() =~= Seq::<EntryV>::empty());
                assert(out.deep_view() + Seq::<OutputFileV>::empty() =~= out.deep_view());
            }
            break ;
        }
        let ghost sv = sorted.deep_view();
        let ghost svec = sorted@;
        let e = sorted.remove(0);
        let ghost ev = e.deep_view();
        proof {
            assert(ev == sv[0]);
            assert forall|k: int| 0 <= k < sorted@.len() implies sorted.deep_view()[k]
                == sv.drop_first()[k] by {
                assert(sorted@[k] == svec[k + 1]);
                assert(sv[k + 1] == svec[k + 1].deep_view());
            }
            assert(sorted.deep_view() =~= sv.drop_first());
            assert(entries_size(sv) == entry_size(sv[0]) + entries_size(sv.drop_first()));
        }
        let ghost out0 = out.deep_view();
        match e {
            Entry::File { name, content } => {
                let content_opt = Some(content);
                match handle_file(dirs, dir_display, &name, &content_opt, data) {
                    Ok(f) => {
                        let ghost fv = f.deep_view();
                        let ghost ovec = out@;
                        proof {
                            assert(walk_entry(ev, dirs_v, dd, m) == Ok::<Seq<OutputFileV>, ErrV>(
                                seq![fv],
                            ));
                        }
                        out.push(f);
                        proof {
                            assert forall|k: int| 0 <= k < out@.len() implies out.deep_view()[k]
                                == out0.push(fv)[k] by {
                                if k < ovec.len() {
                                    assert(out@[k] == ovec[k]);
                                    assert(out0[k] == ovec[k].deep_view());
                                }
                            }
                            assert(out.deep_view() =~= out0.push(fv));
                            if walk_entries(sv.drop_first(), dirs_v, dd, m) is Ok {
                                let rest = walk_entries(sv.drop_first(), dirs_v, dd, m)->Ok_0;
                                assert(out0 + (seq![fv] + rest) =~= out0.push(fv) + rest);
                            }
                        }
                    },
                    Err(err) => {
                        proof {
                            assert(walk_entries(sv, dirs_v, dd, m) is Err);
                        }
                        return Err(err);
                    },
                }
            },
            Entry::Dir { name, entries: children } => {
                let ghost nv = name@;
                let ghost cv = children.deep_view();
                proof {
                    lemma_vec_entries_view(children);
                    assert(ev == (EntryV::Dir { name: nv, entries: cv }));
                    lemma_sort_size(cv);
                    assert(entry_size(ev) == 1 + entries_size(cv));
                }
                let mut dirs2 = clone_segments(dirs);
                let dd2 = join_seg(dir_display, name.as_str());
                dirs2.push(Segment::Name(name));
                proof {
                    assert(dirs2.deep_view() =~= dirs_v.push(SegmentV::Name(nv)));
                }
                match handle_directory(children, &dirs2, &dd2, data) {
                    Ok(mut fs) => {
                        let ghost fsd = fs.deep_view();
                        let ghost ovec = out@;
                        let ghost fvec = fs@;
                        proof {
                            assert(walk_entry(ev, dirs_v, dd, m) == Ok::<Seq<OutputFileV>, ErrV>(
                                fsd,
                            ));
                        }
                        out.append(&mut fs);
                        proof {
                            assert forall|k: int| 0 <= k < out@.len() implies out.deep_view()[k]
                                == (out0 + fsd)[k] by {
                                if k < ovec.len() {
                                    assert(out@[k] == ovec[k]);
                                    assert(out0[k] == ovec[k].deep_view());
                                } else {
                                    assert(out@[k] == fvec[k - ovec.len()]);
                                    assert(fsd[k - ovec.len()] == fvec[k - ovec.len()].deep_view());
                                }
                            }
                            assert(out.deep_view() =~= out0 + fsd);
                            if walk_entries(sv.drop_first(), dirs_v, dd, m) is Ok {
                                let rest = walk_entries(sv.drop_first(), dirs_v, dd, m)->Ok_0;
                                assert(out0 + (fsd + rest) =~= (out0 + fsd) + rest);
                            }
                        }
                    },
                    Err(err) => {
                        proof {
                            assert(walk_entries(sv, dirs_v, dd, m) is Err);
                        }
                        return Err(err);
                    },
                }
            },
        }
    }
    Ok(out)
}

} // verus!

