//! Character-level output helpers: appending a single character to a
//! `String`, and the comment rewriting used by the plain-format headers.
use vstd::prelude::*;
use vstd::string::StrSliceExecFns;

verus! {

/// Relies on String::push: appends exactly one character to the string.
#[verifier::external_body]
pub(crate) fn push_char(out: &mut String, c: char)
    ensures
        final(out)@ == old(out)@.push(c),
{
    out.push(c);
}

/// A comment as it is embedded in a plain-format header: every newline in the
/// source text is rewritten to a newline followed by `"# "`, so each line of
/// the comment starts with the comment marker.
pub open spec fn rewrite_comment(s: Seq<char>) -> Seq<char>
    decreases s.len(),
{
    if s.len() == 0 {
        Seq::empty()
    } else {
        (if s[0] == '\n' {
            seq!['\n', '#', ' ']
        } else {
            seq![s[0]]
        }) + rewrite_comment(s.drop_first())
    }
}

proof fn lemma_rewrite_comment_push(s: Seq<char>, c: char)
    ensures
        rewrite_comment(s.push(c)) == rewrite_comment(s) + (if c == '\n' {
            seq!['\n', '#', ' ']
        } else {
            seq![c]
        }),
    decreases s.len(),
{
    let unit = if c == '\n' {
        seq!['\n', '#', ' ']
    } else {
        seq![c]
    };
    if s.len() == 0 {
        assert(s.push(c)[0] == c);
        assert(s.push(c).drop_first() =~= Seq::<char>::empty());
        assert(rewrite_comment(s.push(c).drop_first()) =~= Seq::<char>::empty());
        assert(rewrite_comment(s.push(c)) =~= unit + rewrite_comment(s.push(c).drop_first()));
        assert(rewrite_comment(s) =~= Seq::<char>::empty());
        assert(rewrite_comment(s.push(c)) =~= rewrite_comment(s) + unit);
    } else {
        assert(s.push(c)[0] == s[0]);
        assert(s.push(c).drop_first() =~= s.drop_first().push(c));
        lemma_rewrite_comment_push(s.drop_first(), c);
        assert(rewrite_comment(s.push(c)) =~= rewrite_comment(s) + unit);
    }
}

/// The full comment block of a plain-format header: a newline, the `"# "`
/// marker, then the comment with embedded newlines rewritten.
pub open spec fn comment_block(s: Seq<char>) -> Seq<char> {
    seq!['\n', '#', ' '] + rewrite_comment(s)
}

/// Appends the comment block for `comment` to `out`.
pub fn push_comment(out: &mut String, comment: &str)
    ensures
        final(out)@ == old(out)@ + comment_block(comment@),
{
    push_char(out, '\n');
    push_char(out, '#');
    push_char(out, ' ');
    let n = comment.unicode_len();
    let mut i: usize = 0;
    while i < n
        invariant
            n == comment@.len(),
            0 <= i <= n,
            out@ == old(out)@ + seq!['\n', '#', ' '] + rewrite_comment(comment@.subrange(0, i as int)),
        decreases n - i,
    {
        let c = comment.get_char(i);
        proof {
            assert(comment@.subrange(0, i + 1) =~= comment@.subrange(0, i as int).push(comment@[i as int]));
            lemma_rewrite_comment_push(comment@.subrange(0, i as int), comment@[i as int]);
        }
        if c == '\n' {
            push_char(out, '\n');
            push_char(out, '#');
            push_char(out, ' ');
        } else {
            push_char(out, c);
        }
        proof {
            assert(out@ =~= old(out)@ + seq!['\n', '#', ' '] + rewrite_comment(
                comment@.subrange(0, i + 1),
            ));
        }
        i = i + 1;
    }
    proof {
        assert(comment@.subrange(0, n as int) =~= comment@);
    }
}

} // verus!
