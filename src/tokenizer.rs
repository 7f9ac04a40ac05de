//! Splitting a command line into an argument vector, with quoted groups and
//! backslash escapes.
use vstd::prelude::*;
use crate::text::string_views;

verus! {

/// Where the tokenizer stands after a prefix of its input.
pub struct TokState {
    /// The tokens emitted so far.
    pub out: Seq<Seq<char>>,
    /// The token being built.
    pub buf: Seq<char>,
    /// The previous character was an unconsumed backslash.
    pub escaped: bool,
    /// The quote character of the open group, if any.
    pub group: Option<char>,
}

pub open spec fn is_quote(c: char) -> bool {
    c == '"' || c == '\''
}

/// One character of input. An escape keeps its backslash inside a quoted
/// group and drops it outside one.
pub open spec fn step(st: TokState, c: char) -> TokState {
    if st.escaped {
        TokState {
            escaped: false,
            buf: if st.group is Some { st.buf.push('\\').push(c) } else { st.buf.push(c) },
            ..st
        }
    } else if c == '\\' {
        TokState { escaped: true, ..st }
    } else if st.group == Some(c) {
        TokState { out: st.out.push(st.buf), buf: Seq::empty(), group: None, ..st }
    } else if st.group is None && is_quote(c) {
        TokState { group: Some(c), ..st }
    } else if st.group is None && c == ' ' {
        TokState { out: st.out.push(st.buf), buf: Seq::empty(), ..st }
    } else {
        TokState { buf: st.buf.push(c), ..st }
    }
}

pub open spec fn run(s: Seq<char>) -> TokState
    decreases s.len(),
{
    if s.len() == 0 {
        TokState { out: Seq::empty(), buf: Seq::empty(), escaped: false, group: None }
    } else {
        step(run(s.drop_last()), s.last())
    }
}

/// The tokens of a command line: those that the characters emit, then the
/// pending buffer if it is not empty (also within an unterminated group).
pub open spec fn tokens_of(s: Seq<char>) -> Seq<Seq<char>> {
    let st = run(s);
    if st.buf.len() > 0 {
        st.out.push(st.buf)
    } else {
        st.out
    }
}

/// Splits `input` into arguments: spaces outside a quoted group end a token,
/// `"` or `'` open a group closed by the same quote, `\` escapes a character.
pub fn commandline_parser(input: &str) -> (r: Vec<String>)
    ensures
        string_views(r@) == tokens_of(input@),
{
    let n = input.unicode_len();
    let mut out: Vec<String> = Vec::new();
    let mut buf = String::new();
    let mut escaped = false;
    let mut group: Option<char> = None;
    let mut i: usize = 0;
    assert(string_views(out@) =~= Seq::<Seq<char>>::empty());
    assert(input@.subrange(0, 0) =~= Seq::<char>::empty());
    while i < n
        invariant
            n == input@.len(),
            i <= n,
            run(input@.subrange(0, i as int)) == (TokState {
                out: string_views(out@),
                buf: buf@,
                escaped,
                group,
            }),
        decreases n - i,
    {
        let c = input.get_char(i);
        proof {
            let t = input@.subrange(0, i + 1);
            assert(t.drop_last() =~= input@.subrange(0, i as int));
        }
        let ghost prev = out@;
        if escaped {
            escaped = false;
            if group.is_some() {
                buf.push('\\');
            }
            buf.push(c);
        } else if c == '\\' {
            escaped = true;
        } else if group == Some(c) {
            group = None;
            out.push(buf);
            buf = String::new();
            assert(string_views(out@) =~= string_views(prev).push(string_views(out@).last()));
        } else if group.is_none() && (c == '"' || c == '\'') {
            group = Some(c);
        } else if group.is_none() && c == ' ' {
            out.push(buf);
            buf = String::new();
            assert(string_views(out@) =~= string_views(prev).push(string_views(out@).last()));
        } else {
            buf.push(c);
        }
        i = i + 1;
    }
    assert(input@.subrange(0, n as int) =~= input@);
    if buf.unicode_len() > 0 {
        let ghost prev = out@;
        out.push(buf);
        assert(string_views(out@) =~= string_views(prev).push(string_views(out@).last()));
    }
    out
}

/// Input that ends inside an unterminated quoted group still yields its
/// pending text, as the last token.
pub proof fn lemma_unterminated_group_flushes(s: Seq<char>)
    requires
        run(s).group is Some,
        run(s).buf.len() > 0,
    ensures
        tokens_of(s).len() > 0,
        tokens_of(s).last() == run(s).buf,
{
}

} // verus!
