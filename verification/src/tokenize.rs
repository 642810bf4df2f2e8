//! The template micro-language tokenizer.
//!
//! A source text is scanned left to right into a sequence of tokens: literal
//! runs and `{{name}}` variable references, where a name is one or more ASCII
//! alphanumerics or underscores. The scan is total: any malformed or
//! ambiguous use of the trigger characters degrades to literal text, so a
//! plain file name is always tokenized without failure. The nine-character
//! sequence `{{"{{"}}` is the one escape: it yields the literal text `{{`.

use vstd::prelude::*;

verus! {

use vstd::std_specs::iter::IteratorSpec;

broadcast use vstd::string::group_string_axioms;

/// One token of a template: a literal run of text, or a variable reference.
#[derive(Debug, PartialEq)]
pub enum Token {
    Val(String),
    Var(String),
}

/// The mathematical counterpart of [`Token`]: payloads are character
/// sequences.
pub enum TokenV {
    Val(Seq<char>),
    Var(Seq<char>),
}

impl DeepView for Token {
    type V = TokenV;

    open spec fn deep_view(&self) -> TokenV {
        match self {
            Token::Val(s) => TokenV::Val(s.view()),
            Token::Var(s) => TokenV::Var(s.view()),
        }
    }
}

/// Characters allowed inside a variable name: ASCII alphanumerics and `_`.
pub open spec fn name_char(c: char) -> bool {
    ||| 'a' as u32 <= c as u32 && c as u32 <= 'z' as u32
    ||| 'A' as u32 <= c as u32 && c as u32 <= 'Z' as u32
    ||| '0' as u32 <= c as u32 && c as u32 <= '9' as u32
    ||| c == '_'
}

/// Exec test for [`name_char`].
pub fn is_name_char(c: char) -> (r: bool)
    ensures
        r == name_char(c),
{
    let u = c as u32;
    ('a' as u32 <= u && u <= 'z' as u32) || ('A' as u32 <= u && u <= 'Z' as u32) || ('0'
        as u32 <= u && u <= '9' as u32) || c == '_'
}

/// A pending literal buffer, emitted as a token only when it is non-empty.
pub open spec fn flush(lit: Seq<char>) -> Seq<TokenV> {
    if lit.len() == 0 {
        seq![]
    } else {
        seq![TokenV::Val(lit)]
    }
}

/// Default scanning mode: `s` is the unread input and `lit` the pending
/// literal text. A `{` followed by a second `{` enters substitution mode;
/// a lone `{` is literal, together with the character after it, if any.
pub open spec fn scan(s: Seq<char>, lit: Seq<char>) -> Seq<TokenV>
    decreases s.len(),
{
    if s.len() == 0 {
        flush(lit)
    } else if s[0] == '{' {
        if s.len() == 1 {
            flush(lit.push('{'))
        } else if s[1] == '{' {
            scan_sub(s.skip(2), lit, Seq::empty())
        } else {
            scan(s.skip(2), lit.push('{').push(s[1]))
        }
    } else {
        scan(s.skip(1), lit.push(s[0]))
    }
}

/// Substitution mode, entered after `{{`: `var` is the variable name read so
/// far. A confirmed `}}` close emits a variable token (or the literal `{{}}`
/// when the name is empty); any other character either extends the name,
/// matches the `"{{"}}` escape, or turns the whole attempt back into
/// literal text.
pub open spec fn scan_sub(s: Seq<char>, lit: Seq<char>, var: Seq<char>) -> Seq<TokenV>
    decreases s.len(),
{
    if s.len() == 0 {
        flush(lit + seq!['{', '{'] + var)
    } else if s[0] == '}' {
        if s.len() >= 2 && s[1] == '}' {
            if var.len() == 0 {
                scan(s.skip(2), lit + seq!['{', '{', '}', '}'])
            } else {
                flush(lit) + seq![TokenV::Var(var)] + scan(s.skip(2), Seq::empty())
            }
        } else if s.len() == 1 {
            flush(lit + seq!['{', '{'] + var + seq!['}'])
        } else {
            scan(s.skip(2), lit + seq!['{', '{'] + var + seq!['}', s[1]])
        }
    } else if name_char(s[0]) {
        scan_sub(s.skip(1), lit, var.push(s[0]))
    } else if var.len() == 0 && s[0] == '"' && s.len() >= 6 && s[1] == '{' && s[2] == '{' && s[3]
        == '"' && s[4] == '}' && s[5] == '}' {
        scan(s.skip(6), lit + seq!['{', '{'])
    } else {
        scan(s.skip(1), lit + seq!['{', '{'] + var + seq![s[0]])
    }
}

/// The token sequence of a source text.
pub open spec fn spec_tokenize(s: Seq<char>) -> Seq<TokenV> {
    scan(s, Seq::empty())
}

/// The outcome of one substitution-mode attempt: how many characters of the
/// remaining input it consumes, which tokens it emits, and the pending
/// literal buffer default mode resumes with.
pub struct SubOutcome {
    pub consumed: int,
    pub emitted: Seq<TokenV>,
    pub pending: Seq<char>,
}

/// What one substitution-mode attempt does on the remaining input `s`,
/// entered just after a consumed `{{` with pending literal `val` and name
/// read so far `var`. A confirmed close of a non-empty name consumes
/// through the `}}` and emits the pending literal (if non-empty) and one
/// variable token; `{{}}`, the escape and every malformed attempt emit
/// nothing and put the consumed characters (or, for the escape, the literal
/// `{{`) back into the pending buffer.
pub open spec fn sub_outcome(s: Seq<char>, val: Seq<char>, var: Seq<char>) -> SubOutcome
    decreases s.len(),
{
    if s.len() == 0 {
        SubOutcome { consumed: 0, emitted: seq![], pending: val + seq!['{', '{'] + var }
    } else if s[0] == '}' {
        if s.len() >= 2 && s[1] == '}' {
            if var.len() == 0 {
                SubOutcome {
                    consumed: 2,
                    emitted: seq![],
                    pending: val + seq!['{', '{', '}', '}'],
                }
            } else {
                SubOutcome {
                    consumed: 2,
                    emitted: flush(val) + seq![TokenV::Var(var)],
                    pending: Seq::empty(),
                }
            }
        } else if s.len() == 1 {
            SubOutcome {
                consumed: 1,
                emitted: seq![],
                pending: val + seq!['{', '{'] + var + seq!['}'],
            }
        } else {
            SubOutcome {
                consumed: 2,
                emitted: seq![],
                pending: val + seq!['{', '{'] + var + seq!['}', s[1]],
            }
        }
    } else if name_char(s[0]) {
        let o = sub_outcome(s.skip(1), val, var.push(s[0]));
        SubOutcome { consumed: 1 + o.consumed, emitted: o.emitted, pending: o.pending }
    } else if var.len() == 0 && s[0] == '"' && s.len() >= 6 && s[1] == '{' && s[2] == '{' && s[3]
        == '"' && s[4] == '}' && s[5] == '}' {
        SubOutcome { consumed: 6, emitted: seq![], pending: val + seq!['{', '{'] }
    } else {
        SubOutcome {
            consumed: 1,
            emitted: seq![],
            pending: val + seq!['{', '{'] + var + seq![s[0]],
        }
    }
}

/// The attempt consumes part of the input, and scanning the rest in default
/// mode with its pending buffer continues exactly where substitution mode
/// left off.
proof fn lemma_sub_outcome_scan(s: Seq<char>, val: Seq<char>, var: Seq<char>)
    ensures
        ({
            let o = sub_outcome(s, val, var);
            &&& 0 <= o.consumed <= s.len()
            &&& scan_sub(s, val, var) == o.emitted + scan(s.skip(o.consumed), o.pending)
        }),
    decreases s.len(),
{
    let o = sub_outcome(s, val, var);
    if s.len() == 0 {
        assert(s.skip(0) =~= s);
        assert(Seq::<TokenV>::empty() + scan(s, o.pending) =~= scan(s, o.pending));
    } else if s[0] == '}' {
        if s.len() >= 2 && s[1] == '}' {
            if var.len() == 0 {
                assert(Seq::<TokenV>::empty() + scan(s.skip(2), o.pending) =~= scan(
                    s.skip(2),
                    o.pending,
                ));
            } else {
                assert(flush(val) + seq![TokenV::Var(var)] + scan(s.skip(2), Seq::empty())
                    =~= (flush(val) + seq![TokenV::Var(var)]) + scan(s.skip(2), Seq::empty()));
            }
        } else if s.len() == 1 {
            assert(s.skip(1) =~= Seq::<char>::empty());
            assert(Seq::<TokenV>::empty() + scan(s.skip(1), o.pending) =~= scan(
                s.skip(1),
                o.pending,
            ));
        } else {
            assert(Seq::<TokenV>::empty() + scan(s.skip(2), o.pending) =~= scan(
                s.skip(2),
                o.pending,
            ));
        }
    } else if name_char(s[0]) {
        lemma_sub_outcome_scan(s.skip(1), val, var.push(s[0]));
        let o2 = sub_outcome(s.skip(1), val, var.push(s[0]));
        assert(s.skip(1).skip(o2.consumed) =~= s.skip(1 + o2.consumed));
    } else if var.len() == 0 && s[0] == '"' && s.len() >= 6 && s[1] == '{' && s[2] == '{' && s[3]
        == '"' && s[4] == '}' && s[5] == '}' {
        assert(Seq::<TokenV>::empty() + scan(s.skip(6), o.pending) =~= scan(s.skip(6), o.pending));
    } else {
        assert(Seq::<TokenV>::empty() + scan(s.skip(1), o.pending) =~= scan(s.skip(1), o.pending));
    }
}

/// On a well-formed name followed by its close, the attempt consumes
/// exactly the name and the `}}`, emits the pending literal (when
/// non-empty) and then the one variable token, and leaves an empty pending
/// buffer.
pub proof fn lemma_sub_outcome_name(n: Seq<char>, y: Seq<char>, val: Seq<char>, var: Seq<char>)
    requires
        forall|i: int| 0 <= i < n.len() ==> name_char(#[trigger] n[i]),
        var.len() + n.len() > 0,
    ensures
        sub_outcome(n + seq!['}', '}'] + y, val, var) == (SubOutcome {
            consumed: n.len() + 2int,
            emitted: flush(val) + seq![TokenV::Var(var + n)],
            pending: Seq::empty(),
        }),
    decreases n.len(),
{
    let s = n + seq!['}', '}'] + y;
    if n.len() == 0 {
        assert(s[0] == '}');
        assert(s[1] == '}');
        assert(var + n =~= var);
    } else {
        let c = n[0];
        assert(s[0] == c);
        assert(name_char(c));
        assert(c != '}');
        assert forall|i: int| 0 <= i < n.drop_first().len() implies name_char(
            #[trigger] n.drop_first()[i],
        ) by {
            assert(n.drop_first()[i] == n[i + 1]);
        }
        lemma_sub_outcome_name(n.drop_first(), y, val, var.push(c));
        assert(s.skip(1) =~= n.drop_first() + seq!['}', '}'] + y);
        assert(var.push(c) + n.drop_first() =~= var + n);
    }
}

/// An attempt emits either no token at all, or the pending literal (when
/// non-empty) followed by exactly one variable token whose name is a
/// non-empty run of name characters.
pub proof fn lemma_sub_outcome_emitted(s: Seq<char>, val: Seq<char>, var: Seq<char>)
    requires
        forall|i: int| 0 <= i < var.len() ==> name_char(#[trigger] var[i]),
    ensures
        ({
            let o = sub_outcome(s, val, var);
            o.emitted == Seq::<TokenV>::empty() || (exists|n: Seq<char>|
                {
                    &&& o.emitted == flush(val) + seq![TokenV::Var(n)]
                    &&& n.len() > 0
                    &&& forall|i: int| 0 <= i < n.len() ==> name_char(#[trigger] n[i])
                })
        }),
    decreases s.len(),
{
    if s.len() > 0 && s[0] == '}' && s.len() >= 2 && s[1] == '}' && var.len() > 0 {
        let o = sub_outcome(s, val, var);
        assert(o.emitted == flush(val) + seq![TokenV::Var(var)]);
    } else if s.len() > 0 && s[0] != '}' && name_char(s[0]) {
        assert forall|i: int| 0 <= i < var.push(s[0]).len() implies name_char(
            #[trigger] var.push(s[0])[i],
        ) by {
            if i < var.len() {
                assert(var.push(s[0])[i] == var[i]);
            }
        }
        lemma_sub_outcome_emitted(s.skip(1), val, var.push(s[0]));
    }
}

/// No two adjacent characters of `s` spell the substitution trigger `{{`.
pub open spec fn no_open(s: Seq<char>) -> bool {
    forall|i: int| 0 <= i && i + 1 < s.len() ==> !((#[trigger] s[i]) == '{' && s[i + 1] == '{')
}

/// Scanning text free of `{{` only extends the pending literal.
proof fn lemma_scan_no_open(s: Seq<char>, lit: Seq<char>)
    requires
        no_open(s),
    ensures
        scan(s, lit) == flush(lit + s),
    decreases s.len(),
{
    if s.len() == 0 {
        assert(lit + s =~= lit);
    } else if s[0] == '{' {
        if s.len() == 1 {
            assert(lit.push('{') =~= lit + s);
        } else {
            assert(s[1] != '{');
            assert forall|i: int| 0 <= i && i + 1 < s.skip(2).len() implies !((#[trigger] s.skip(
                2,
            )[i]) == '{' && s.skip(2)[i + 1] == '{') by {
                assert(s.skip(2)[i] == s[i + 2]);
                assert(s.skip(2)[i + 1] == s[i + 3]);
            }
            lemma_scan_no_open(s.skip(2), lit.push('{').push(s[1]));
            assert(lit.push('{').push(s[1]) + s.skip(2) =~= lit + s);
        }
    } else {
        assert forall|i: int| 0 <= i && i + 1 < s.skip(1).len() implies !((#[trigger] s.skip(
            1,
        )[i]) == '{' && s.skip(1)[i + 1] == '{') by {
            assert(s.skip(1)[i] == s[i + 1]);
            assert(s.skip(1)[i + 1] == s[i + 2]);
        }
        lemma_scan_no_open(s.skip(1), lit.push(s[0]));
        assert(lit.push(s[0]) + s.skip(1) =~= lit + s);
    }
}

/// A source text without `{{` tokenizes to itself: one literal token equal
/// to the whole text, or no token at all when the text is empty.
pub proof fn lemma_tokenize_no_braces(s: Seq<char>)
    requires
        no_open(s),
    ensures
        s.len() == 0 ==> spec_tokenize(s) == Seq::<TokenV>::empty(),
        s.len() > 0 ==> spec_tokenize(s) == seq![TokenV::Val(s)],
{
    lemma_scan_no_open(s, Seq::empty());
    assert(Seq::<char>::empty() + s =~= s);
}

/// Entering substitution mode: a prefix free of `{{` and not ending in `{`
/// becomes the pending literal, and the scan continues after the `{{`.
proof fn lemma_scan_enters_sub(x: Seq<char>, z: Seq<char>, lit: Seq<char>)
    requires
        no_open(x),
        x.len() > 0 ==> x.last() != '{',
    ensures
        scan(x + seq!['{', '{'] + z, lit) == scan_sub(z, lit + x, Seq::empty()),
    decreases x.len(),
{
    let s = x + seq!['{', '{'] + z;
    if x.len() == 0 {
        assert(s[0] == '{');
        assert(s[1] == '{');
        assert(s.skip(2) =~= z);
        assert(lit + x =~= lit);
    } else if x[0] == '{' {
        assert(x.len() >= 2);
        assert(x[1] != '{');
        assert(s[0] == '{');
        assert(s[1] == x[1]);
        assert forall|i: int| 0 <= i && i + 1 < x.skip(2).len() implies !((#[trigger] x.skip(
            2,
        )[i]) == '{' && x.skip(2)[i + 1] == '{') by {
            assert(x.skip(2)[i] == x[i + 2]);
            assert(x.skip(2)[i + 1] == x[i + 3]);
        }
        assert(x.len() > 2 ==> x.skip(2).last() == x.last());
        lemma_scan_enters_sub(x.skip(2), z, lit.push('{').push(x[1]));
        assert(s.skip(2) =~= x.skip(2) + seq!['{', '{'] + z);
        assert(lit.push('{').push(x[1]) + x.skip(2) =~= lit + x);
    } else {
        assert(s[0] == x[0]);
        assert forall|i: int| 0 <= i && i + 1 < x.skip(1).len() implies !((#[trigger] x.skip(
            1,
        )[i]) == '{' && x.skip(1)[i + 1] == '{') by {
            assert(x.skip(1)[i] == x[i + 1]);
            assert(x.skip(1)[i + 1] == x[i + 2]);
        }
        assert(x.len() > 1 ==> x.skip(1).last() == x.last());
        lemma_scan_enters_sub(x.skip(1), z, lit.push(x[0]));
        assert(s.skip(1) =~= x.skip(1) + seq!['{', '{'] + z);
        assert(lit.push(x[0]) + x.skip(1) =~= lit + x);
    }
}

/// Reading a well-formed name up to its `}}` close emits the pending
/// literal and then the variable token, and rescans after the close.
proof fn lemma_scan_sub_name(n: Seq<char>, y: Seq<char>, lit: Seq<char>, var: Seq<char>)
    requires
        forall|i: int| 0 <= i < n.len() ==> name_char(#[trigger] n[i]),
        var.len() + n.len() > 0,
    ensures
        scan_sub(n + seq!['}', '}'] + y, lit, var) == flush(lit) + seq![TokenV::Var(var + n)]
            + scan(y, Seq::empty()),
    decreases n.len(),
{
    let s = n + seq!['}', '}'] + y;
    if n.len() == 0 {
        assert(s[0] == '}');
        assert(s[1] == '}');
        assert(var + n =~= var);
        assert(s.skip(2) =~= y);
    } else {
        let c = n[0];
        assert(s[0] == c);
        assert(name_char(c));
        assert(c != '}');
        assert(c != '"');
        assert forall|i: int| 0 <= i < n.drop_first().len() implies name_char(
            #[trigger] n.drop_first()[i],
        ) by {
            assert(n.drop_first()[i] == n[i + 1]);
        }
        lemma_scan_sub_name(n.drop_first(), y, lit, var.push(c));
        assert(s.skip(1) =~= n.drop_first() + seq!['}', '}'] + y);
        assert(var.push(c) + n.drop_first() =~= var + n);
    }
}

/// A well-formed `{{name}}` after a plain prefix tokenizes to the prefix as
/// a literal, the variable token, and then whatever the rest tokenizes to.
pub proof fn lemma_variable_token(x: Seq<char>, name: Seq<char>, y: Seq<char>)
    requires
        no_open(x),
        x.len() > 0 ==> x.last() != '{',
        name.len() > 0,
        forall|i: int| 0 <= i < name.len() ==> name_char(#[trigger] name[i]),
    ensures
        spec_tokenize(x + seq!['{', '{'] + name + seq!['}', '}'] + y) == flush(x) + seq![
            TokenV::Var(name),
        ] + spec_tokenize(y),
{
    let z = name + seq!['}', '}'] + y;
    assert(x + seq!['{', '{'] + name + seq!['}', '}'] + y =~= x + seq!['{', '{'] + z);
    lemma_scan_enters_sub(x, z, Seq::empty());
    assert(Seq::<char>::empty() + x =~= x);
    lemma_scan_sub_name(name, y, x, Seq::empty());
    assert(Seq::<char>::empty() + name =~= name);
}

/// Reassemble a token sequence back into source text, variables re-wrapped
/// in their braces.
pub open spec fn untokenize(ts: Seq<TokenV>) -> Seq<char>
    decreases ts.len(),
{
    if ts.len() == 0 {
        Seq::empty()
    } else {
        (match ts[0] {
            TokenV::Val(t) => t,
            TokenV::Var(n) => seq!['{', '{'] + n + seq!['}', '}'],
        }) + untokenize(ts.drop_first())
    }
}

/// Reassembling a flushed literal gives the literal back.
proof fn lemma_untok_flush(a: Seq<char>)
    ensures
        untokenize(flush(a)) == a,
{
    if a.len() == 0 {
        assert(untokenize(flush(a)) =~= a);
    } else {
        assert(flush(a)[0] == TokenV::Val(a));
        assert(flush(a).drop_first() =~= Seq::<TokenV>::empty());
        assert(a + untokenize(Seq::<TokenV>::empty()) =~= a);
    }
}

/// Reassembling a literal, a variable and a tail concatenates their texts.
proof fn lemma_untok_var_prefix(lit: Seq<char>, v: Seq<char>, rest: Seq<TokenV>)
    ensures
        untokenize(flush(lit) + seq![TokenV::Var(v)] + rest) == lit + (seq!['{', '{'] + v + seq![
            '}',
            '}',
        ]) + untokenize(rest),
{
    let ts = flush(lit) + seq![TokenV::Var(v)] + rest;
    let braced = seq!['{', '{'] + v + seq!['}', '}'];
    if lit.len() == 0 {
        assert(ts.len() > 0);
        assert(ts[0] == TokenV::Var(v));
        assert(ts.drop_first() =~= rest);
        assert(untokenize(ts) == braced + untokenize(rest));
        assert(braced + untokenize(rest) =~= lit + braced + untokenize(rest));
    } else {
        let ts2 = seq![TokenV::Var(v)] + rest;
        assert(ts.len() > 0);
        assert(ts[0] == TokenV::Val(lit));
        assert(ts.drop_first() =~= ts2);
        assert(ts2.len() > 0);
        assert(ts2[0] == TokenV::Var(v));
        assert(ts2.drop_first() =~= rest);
        assert(untokenize(ts2) == braced + untokenize(rest));
        assert(untokenize(ts) == lit + (braced + untokenize(rest)));
        assert(lit + (braced + untokenize(rest)) =~= lit + braced + untokenize(rest));
    }
}

/// The complete escape sequence `{{"{{"}}` stands at position `i` of `s`.
pub open spec fn escape_at(s: Seq<char>, i: int) -> bool {
    &&& 0 <= i
    &&& i + 8 <= s.len()
    &&& s[i] == '{'
    &&& s[i + 1] == '{'
    &&& s[i + 2] == '"'
    &&& s[i + 3] == '{'
    &&& s[i + 4] == '{'
    &&& s[i + 5] == '"'
    &&& s[i + 6] == '}'
    &&& s[i + 7] == '}'
}

/// The complete escape sequence occurs nowhere in `s`. Only then does the
/// scan never collapse characters.
pub open spec fn no_escape(s: Seq<char>) -> bool {
    forall|i: int| !escape_at(s, i)
}

/// The six characters that fire the escape, as substitution mode sees them
/// right after the consumed `{{`.
spec fn escape_trigger(s: Seq<char>) -> bool {
    &&& s.len() >= 6
    &&& s[0] == '"'
    &&& s[1] == '{'
    &&& s[2] == '{'
    &&& s[3] == '"'
    &&& s[4] == '}'
    &&& s[5] == '}'
}

/// A suffix of an escape-free text is escape-free.
proof fn lemma_no_escape_skip(s: Seq<char>, d: int)
    requires
        no_escape(s),
        0 <= d <= s.len(),
    ensures
        no_escape(s.skip(d)),
{
    assert forall|k: int| !escape_at(s.skip(d), k) by {
        if escape_at(s.skip(d), k) {
            assert forall|m: int| 0 <= m < 8 implies #[trigger] s.skip(d)[k + m] == s[d + k
                + m] by {}
            assert(escape_at(s, d + k));
        }
    }
}

/// Without a complete escape occurrence, default-mode scanning loses no
/// text.
proof fn lemma_untok_scan(s: Seq<char>, lit: Seq<char>)
    requires
        no_escape(s),
    ensures
        untokenize(scan(s, lit)) == lit + s,
    decreases s.len(), 0int,
{
    if s.len() == 0 {
        lemma_untok_flush(lit);
        assert(lit + s =~= lit);
    } else if s[0] == '{' {
        if s.len() == 1 {
            lemma_untok_flush(lit.push('{'));
            assert(lit.push('{') =~= lit + s);
        } else if s[1] == '{' {
            lemma_no_escape_skip(s, 2);
            assert(!escape_trigger(s.skip(2))) by {
                if escape_trigger(s.skip(2)) {
                    assert forall|m: int| 0 <= m < 6 implies #[trigger] s.skip(2)[m] == s[2
                        + m] by {}
                    assert(escape_at(s, 0));
                }
            }
            lemma_untok_scan_sub(s.skip(2), lit, Seq::empty());
            assert(lit + seq!['{', '{'] + Seq::<char>::empty() + s.skip(2) =~= lit + s);
        } else {
            lemma_no_escape_skip(s, 2);
            lemma_untok_scan(s.skip(2), lit.push('{').push(s[1]));
            assert(lit.push('{').push(s[1]) + s.skip(2) =~= lit + s);
        }
    } else {
        lemma_no_escape_skip(s, 1);
        lemma_untok_scan(s.skip(1), lit.push(s[0]));
        assert(lit.push(s[0]) + s.skip(1) =~= lit + s);
    }
}

/// Without a complete escape occurrence, substitution-mode scanning loses
/// no text either: the escape can only fire on the six trigger characters
/// with an empty name buffer, and then the full sequence stood in the text.
proof fn lemma_untok_scan_sub(s: Seq<char>, lit: Seq<char>, var: Seq<char>)
    requires
        no_escape(s),
        var.len() == 0 ==> !escape_trigger(s),
    ensures
        untokenize(scan_sub(s, lit, var)) == lit + seq!['{', '{'] + var + s,
    decreases s.len(), 1int,
{
    if s.len() == 0 {
        lemma_untok_flush(lit + seq!['{', '{'] + var);
        assert(lit + seq!['{', '{'] + var + s =~= lit + seq!['{', '{'] + var);
    } else if s[0] == '}' {
        if s.len() >= 2 && s[1] == '}' {
            if var.len() == 0 {
                lemma_no_escape_skip(s, 2);
                lemma_untok_scan(s.skip(2), lit + seq!['{', '{', '}', '}']);
                assert(lit + seq!['{', '{', '}', '}'] + s.skip(2) =~= lit + seq!['{', '{'] + var
                    + s);
            } else {
                lemma_no_escape_skip(s, 2);
                lemma_untok_scan(s.skip(2), Seq::empty());
                lemma_untok_var_prefix(lit, var, scan(s.skip(2), Seq::empty()));
                assert(Seq::<char>::empty() + s.skip(2) =~= s.skip(2));
                assert(lit + (seq!['{', '{'] + var + seq!['}', '}']) + s.skip(2) =~= lit + seq![
                    '{',
                    '{',
                ] + var + s);
            }
        } else if s.len() == 1 {
            lemma_untok_flush(lit + seq!['{', '{'] + var + seq!['}']);
            assert(lit + seq!['{', '{'] + var + seq!['}'] =~= lit + seq!['{', '{'] + var + s);
        } else {
            lemma_no_escape_skip(s, 2);
            lemma_untok_scan(s.skip(2), lit + seq!['{', '{'] + var + seq!['}', s[1]]);
            assert(lit + seq!['{', '{'] + var + seq!['}', s[1]] + s.skip(2) =~= lit + seq![
                '{',
                '{',
            ] + var + s);
        }
    } else if name_char(s[0]) {
        lemma_no_escape_skip(s, 1);
        lemma_untok_scan_sub(s.skip(1), lit, var.push(s[0]));
        assert(lit + seq!['{', '{'] + var.push(s[0]) + s.skip(1) =~= lit + seq!['{', '{'] + var
            + s);
    } else {
        assert(!(var.len() == 0 && s[0] == '"' && s.len() >= 6 && s[1] == '{' && s[2] == '{'
            && s[3] == '"' && s[4] == '}' && s[5] == '}'));
        lemma_no_escape_skip(s, 1);
        lemma_untok_scan(s.skip(1), lit + seq!['{', '{'] + var + seq![s[0]]);
        assert(lit + seq!['{', '{'] + var + seq![s[0]] + s.skip(1) =~= lit + seq!['{', '{'] + var
            + s);
    }
}

/// Tokenizing loses or duplicates no characters: reassembling the tokens,
/// variables re-wrapped in their braces, reproduces the source text. Texts
/// holding a complete `{{"{{"}}` occurrence are left out: on those the
/// escape collapses the sequence to a literal `{{` by design.
pub proof fn lemma_untokenize_round_trip(s: Seq<char>)
    requires
        no_escape(s),
    ensures
        untokenize(spec_tokenize(s)) == s,
{
    lemma_untok_scan(s, Seq::empty());
    assert(Seq::<char>::empty() + s =~= s);
}

/// The concatenation of the literal texts of a token sequence; variable
/// tokens contribute nothing.
pub open spec fn literals_concat(ts: Seq<TokenV>) -> Seq<char>
    decreases ts.len(),
{
    if ts.len() == 0 {
        Seq::empty()
    } else {
        (match ts[0] {
            TokenV::Val(t) => t,
            TokenV::Var(n) => Seq::empty(),
        }) + literals_concat(ts.drop_first())
    }
}

/// On literal-only token sequences, reassembly is the literal
/// concatenation.
proof fn lemma_literals_concat_untokenize(ts: Seq<TokenV>)
    requires
        forall|i: int| 0 <= i < ts.len() ==> (#[trigger] ts[i]) is Val,
    ensures
        literals_concat(ts) == untokenize(ts),
    decreases ts.len(),
{
    if ts.len() > 0 {
        assert forall|i: int| 0 <= i < ts.drop_first().len() implies (#[trigger] ts.drop_first()[i]) is Val by {
            assert(ts.drop_first()[i] == ts[i + 1]);
        }
        lemma_literals_concat_untokenize(ts.drop_first());
    }
}

/// A text that tokenizes to literal tokens alone — as any unterminated
/// `{{...` without a completed substitution does — is reproduced exactly by
/// concatenating those literals: no character is lost or duplicated.
pub proof fn lemma_all_literals_reassemble(s: Seq<char>)
    requires
        no_escape(s),
        forall|i: int| 0 <= i < spec_tokenize(s).len() ==> (#[trigger] spec_tokenize(s)[i]) is Val,
    ensures
        literals_concat(spec_tokenize(s)) == s,
{
    lemma_untokenize_round_trip(s);
    lemma_literals_concat_untokenize(spec_tokenize(s));
}

/// The characters of a string, as a vector.
pub fn chars_of(s: &str) -> (r: Vec<char>)
    ensures
        r@ == s@,
{
    let mut it = s.chars();
    let mut r: Vec<char> = Vec::new();
    loop
        invariant
            it.obeys_prophetic_iter_laws(),
            it.decrease() is Some,
            r@ + it.remaining() == s@,
        ensures
            r@ == s@,
        decreases it.decrease()->0,
    {
        let ghost prev = it.remaining();
        match it.next() {
            Some(c) => {
                proof {
                    assert(r@.push(c) + prev.drop_first() =~= r@ + prev);
                }
                r.push(c);
            },
            None => {
                proof {
                    assert(r@ + prev =~= r@);
                }
                break ;
            },
        }
    }
    r
}

/// Relies on `String::from_iter` over characters: the built string holds
/// exactly the given characters, in order.
#[verifier::external_body]
pub(crate) fn string_from_chars(v: &Vec<char>) -> (r: String)
    ensures
        r@ == v@,
{
    String::from_iter(v.iter().copied())
}

/// Substitution mode of the scanner, entered after an opening `{{` at
/// position `i` of `s`. The attempt's [`sub_outcome`] pins the position
/// where default mode resumes, the tokens appended onto `tokens`, and the
/// returned pending literal buffer exactly, case by case.
pub fn parse_tmpl_sub(s: &Vec<char>, i: usize, tokens: &mut Vec<Token>, val: Vec<char>) -> (r: (
    Vec<char>,
    usize,
))
    requires
        i <= s@.len(),
    ensures
        r.1 == i + sub_outcome(s@.skip(i as int), val@, Seq::empty()).consumed,
        i <= r.1 <= s@.len(),
        final(tokens).deep_view() == old(tokens).deep_view() + sub_outcome(
            s@.skip(i as int),
            val@,
            Seq::empty(),
        ).emitted,
        r.0@ == sub_outcome(s@.skip(i as int), val@, Seq::empty()).pending,
{
    let ghost t0 = tokens.deep_view();
    let ghost start = sub_outcome(s@.skip(i as int), val@, Seq::empty());
    let mut var: Vec<char> = Vec::new();
    let mut j: usize = i;
    proof {
        let o = sub_outcome(s@.skip(i as int), val@, var@);
        assert(start == (SubOutcome {
            consumed: j - i + o.consumed,
            emitted: o.emitted,
            pending: o.pending,
        }));
    }
    loop
        invariant
            i <= j <= s@.len(),
            tokens.deep_view() == t0,
            t0 == old(tokens).deep_view(),
            start == sub_outcome(s@.skip(i as int), val@, Seq::empty()),
            start == (SubOutcome {
                consumed: j - i + sub_outcome(s@.skip(j as int), val@, var@).consumed,
                emitted: sub_outcome(s@.skip(j as int), val@, var@).emitted,
                pending: sub_outcome(s@.skip(j as int), val@, var@).pending,
            }),
        decreases s@.len() - j,
    {
        proof {
            assert(s@.skip(j as int).len() == s@.len() - j);
        }
        if j >= s.len() {
            // end of input inside a substitution: everything read is literal
            let mut out = val;
            out.push('{');
            out.push('{');
            out.extend_from_slice(var.as_slice());
            proof {
                assert(out@ =~= val@ + seq!['{', '{'] + var@);
                assert(tokens.deep_view() =~= t0 + start.emitted);
            }
            return (out, j);
        }
        let c = s[j];
        proof {
            assert(s@.skip(j as int)[0] == c);
        }
        if c == '}' {
            if j + 1 < s.len() && s[j + 1] == '}' {
                proof {
                    assert(s@.skip(j as int)[1] == s@[j + 1]);
                }
                if var.len() == 0 {
                    // `{{}}` is not a substitution: it stays literal
                    let mut out = val;
                    out.push('{');
                    out.push('{');
                    out.push('}');
                    out.push('}');
                    proof {
                        assert(out@ =~= val@ + seq!['{', '{', '}', '}']);
                        assert(tokens.deep_view() =~= t0 + start.emitted);
                    }
                    return (out, j + 2);
                } else if val.len() == 0 {
                    let name = string_from_chars(&var);
                    tokens.push(Token::Var(name));
                    proof {
                        assert(tokens.deep_view() =~= t0.push(TokenV::Var(var@)));
                        assert(flush(val@) =~= Seq::<TokenV>::empty());
                        assert(flush(val@) + seq![TokenV::Var(var@)] =~= seq![
                            TokenV::Var(var@),
                        ]);
                        assert(tokens.deep_view() =~= t0 + start.emitted);
                        assert(val@ =~= Seq::<char>::empty());
                    }
                    return (val, j + 2);
                } else {
                    let lit = string_from_chars(&val);
                    let name = string_from_chars(&var);
                    tokens.push(Token::Val(lit));
                    tokens.push(Token::Var(name));
                    let out: Vec<char> = Vec::new();
                    proof {
                        assert(tokens.deep_view() =~= t0.push(TokenV::Val(val@)).push(
                            TokenV::Var(var@),
                        ));
                        assert(flush(val@) + seq![TokenV::Var(var@)] =~= seq![
                            TokenV::Val(val@),
                            TokenV::Var(var@),
                        ]);
                        assert(tokens.deep_view() =~= t0 + start.emitted);
                        assert(out@ =~= Seq::<char>::empty());
                    }
                    return (out, j + 2);
                }
            } else {
                // `}` not followed by `}`: the attempt reverts to literal
                let mut out = val;
                out.push('{');
                out.push('{');
                out.extend_from_slice(var.as_slice());
                out.push('}');
                if j + 1 < s.len() {
                    let c2 = s[j + 1];
                    out.push(c2);
                    proof {
                        assert(s@.skip(j as int)[1] == s@[j + 1]);
                        assert(out@ =~= val@ + seq!['{', '{'] + var@ + seq!['}', s@[j + 1]]);
                        assert(tokens.deep_view() =~= t0 + start.emitted);
                    }
                    return (out, j + 2);
                } else {
                    proof {
                        assert(s@.skip(j as int).len() == 1);
                        assert(out@ =~= val@ + seq!['{', '{'] + var@ + seq!['}']);
                        assert(j + 1 == s@.len());
                        assert(tokens.deep_view() =~= t0 + start.emitted);
                    }
                    return (out, j + 1);
                }
            }
        } else if is_name_char(c) {
            proof {
                assert(s@.skip(j as int).skip(1) =~= s@.skip(j + 1));
            }
            var.push(c);
            j = j + 1;
        } else if var.len() == 0 && c == '"' && s.len() - j > 5 && s[j + 1] == '{' && s[j + 2]
            == '{' && s[j + 3] == '"' && s[j + 4] == '}' && s[j + 5] == '}' {
            // the escape `{{"{{"}}`: the whole sequence becomes a literal `{{`
            let mut out = val;
            out.push('{');
            out.push('{');
            proof {
                assert forall|k: int| 1 <= k < 6 implies s@.skip(j as int)[k] == s@[j + k] by {}
                assert(out@ =~= val@ + seq!['{', '{']);
                assert(tokens.deep_view() =~= t0 + start.emitted);
            }
            return (out, j + 6);
        } else {
            // any other character invalidates the substitution attempt
            let mut out = val;
            out.push('{');
            out.push('{');
            out.extend_from_slice(var.as_slice());
            out.push(c);
            proof {
                assert(out@ =~= val@ + seq!['{', '{'] + var@ + seq![s@[j as int]]);
                assert(tokens.deep_view() =~= t0 + start.emitted);
            }
            return (out, j + 1);
        }
    }
}

/// Tokenize a source text. Total: any input yields a token sequence, and
/// unrecognized uses of `{`, `}` degrade to literal text.
pub fn parse_tmpl(s: &str) -> (tokens: Vec<Token>)
    ensures
        tokens.deep_view() == spec_tokenize(s@),
{
    let cs = chars_of(s);
    let mut tokens: Vec<Token> = Vec::new();
    let mut val: Vec<char> = Vec::new();
    let mut i: usize = 0;
    proof {
        assert(tokens.deep_view() =~= Seq::<TokenV>::empty());
        assert(s@.skip(0) =~= s@);
        assert(Seq::<TokenV>::empty() + scan(s@, val@) =~= scan(s@, val@));
    }
    while i < cs.len()
        invariant
            i <= cs@.len(),
            cs@ == s@,
            spec_tokenize(s@) == tokens.deep_view() + scan(s@.skip(i as int), val@),
        decreases cs@.len() - i,
    {
        let c = cs[i];
        proof {
            assert(s@.skip(i as int)[0] == s@[i as int]);
        }
        if c == '{' {
            if i + 1 < cs.len() {
                let c2 = cs[i + 1];
                proof {
                    assert(s@.skip(i as int)[1] == s@[i + 1]);
                }
                if c2 == '{' {
                    proof {
                        assert(s@.skip(i as int).skip(2) =~= s@.skip(i + 2));
                    }
                    let ghost tprev = tokens.deep_view();
                    let ghost vv = val@;
                    let (v2, i2) = parse_tmpl_sub(&cs, i + 2, &mut tokens, val);
                    proof {
                        let t = s@.skip(i + 2);
                        let o = sub_outcome(t, vv, Seq::empty());
                        lemma_sub_outcome_scan(t, vv, Seq::empty());
                        assert(t.skip(o.consumed) =~= s@.skip(i2 as int));
                        assert((tprev + o.emitted) + scan(s@.skip(i2 as int), v2@) =~= tprev + (
                        o.emitted + scan(s@.skip(i2 as int), v2@)));
                    }
                    val = v2;
                    i = i2;
                } else {
                    proof {
                        assert(s@.skip(i as int).skip(2) =~= s@.skip(i + 2));
                    }
                    val.push(c);
                    val.push(c2);
                    i = i + 2;
                }
            } else {
                proof {
                    assert(s@.skip(i as int).len() == 1);
                    assert(s@.skip(i + 1) =~= Seq::<char>::empty());
                }
                val.push(c);
                i = i + 1;
            }
        } else {
            proof {
                assert(s@.skip(i as int).skip(1) =~= s@.skip(i + 1));
            }
            val.push(c);
            i = i + 1;
        }
    }
    proof {
        assert(s@.skip(i as int) =~= Seq::<char>::empty());
    }
    if val.len() > 0 {
        let lit = string_from_chars(&val);
        tokens.push(Token::Val(lit));
        proof {
            assert(tokens.deep_view() =~= spec_tokenize(s@));
        }
    } else {
        proof {
            assert(tokens.deep_view() + flush(val@) =~= tokens.deep_view());
        }
    }
    tokens
}

} // verus!
