//! Quoting of a path so that a POSIX shell reads it back as one word.
use vstd::prelude::*;
use vstd::string::*;

verus! {

/// A character that a shell never treats as syntax.
pub open spec fn is_safe_char(c: char) -> bool {
    ('a' <= c && c <= 'z') || ('A' <= c && c <= 'Z') || ('0' <= c && c <= '9') || c == '-'
        || c == '_' || c == '.' || c == '/' || c == ':' || c == '@'
}

/// Every character of `s` is safe.
pub open spec fn all_safe(s: Seq<char>) -> bool {
    forall|i: int| 0 <= i < s.len() ==> is_safe_char(#[trigger] s[i])
}

/// What stands for one character inside single quotes.
pub open spec fn quote_char(c: char) -> Seq<char> {
    if c == '\'' {
        seq!['\'', '\\', '\'', '\'']
    } else {
        seq![c]
    }
}

/// The characters of `s` with each single quote replaced by `'\''`.
pub open spec fn quote_body(s: Seq<char>) -> Seq<char>
    decreases s.len(),
{
    if s.len() == 0 {
        Seq::empty()
    } else {
        quote_char(s[0]) + quote_body(s.drop_first())
    }
}

proof fn lemma_quote_body_push(a: Seq<char>, c: char)
    ensures
        quote_body(a.push(c)) == quote_body(a) + quote_char(c),
    decreases a.len(),
{
    if a.len() == 0 {
        assert(a.push(c).drop_first() =~= Seq::<char>::empty());
        assert(a.push(c)[0] == c);
        assert(quote_body(Seq::<char>::empty()) == Seq::<char>::empty());
        assert(quote_body(a) == Seq::<char>::empty());
        assert(quote_body(a.push(c)) =~= quote_body(a) + quote_char(c));
    } else {
        assert(a.push(c).drop_first() =~= a.drop_first().push(c));
        lemma_quote_body_push(a.drop_first(), c);
        assert(quote_body(a.push(c)) =~= quote_body(a) + quote_char(c));
    }
}

/// Prepends `p` to the word that was read, if any.
pub open spec fn prepend(p: Seq<char>, w: Option<Seq<char>>) -> Option<Seq<char>> {
    match w {
        Some(r) => Some(p + r),
        None => None,
    }
}

/// How a POSIX shell reads `w` as the rest of a single word, inside single
/// quotes when `quoted`: outside quotes a safe character stands for itself, a
/// backslash takes the next character literally and a single quote opens a
/// quoted run; inside quotes every character but the closing single quote
/// stands for itself. `None` when the rest is not part of one word (an
/// unquoted blank or operator, an unclosed quote).
pub open spec fn read_word(w: Seq<char>, quoted: bool) -> Option<Seq<char>>
    decreases w.len(),
{
    if w.len() == 0 {
        if quoted {
            None
        } else {
            Some(Seq::empty())
        }
    } else {
        let c = w[0];
        let rest = w.drop_first();
        if quoted {
            if c == '\'' {
                read_word(rest, false)
            } else {
                prepend(seq![c], read_word(rest, true))
            }
        } else if c == '\'' {
            read_word(rest, true)
        } else if c == '\\' {
            if rest.len() == 0 {
                None
            } else {
                prepend(seq![rest[0]], read_word(rest.drop_first(), false))
            }
        } else if is_safe_char(c) {
            prepend(seq![c], read_word(rest, false))
        } else {
            None
        }
    }
}

proof fn lemma_read_safe(s: Seq<char>)
    requires
        all_safe(s),
    ensures
        read_word(s, false) == Some(s),
    decreases s.len(),
{
    if s.len() > 0 {
        assert(is_safe_char(s[0]));
        assert(all_safe(s.drop_first())) by {
            assert forall|i: int| 0 <= i < s.drop_first().len() implies is_safe_char(
                #[trigger] s.drop_first()[i],
            ) by {
                assert(s.drop_first()[i] == s[i + 1]);
            }
        }
        lemma_read_safe(s.drop_first());
        assert(seq![s[0]] + s.drop_first() =~= s);
    }
}

proof fn lemma_read_quoted(s: Seq<char>, tail: Seq<char>)
    ensures
        read_word(quote_body(s) + seq!['\''] + tail, true) == prepend(s, read_word(tail, false)),
    decreases s.len(),
{
    let w = quote_body(s) + seq!['\''] + tail;
    if s.len() == 0 {
        assert(quote_body(s) == Seq::<char>::empty());
        assert(w =~= seq!['\''] + tail);
        assert(w.drop_first() =~= tail);
        assert(w[0] == '\'');
        assert(read_word(w, true) == read_word(tail, false));
        match read_word(tail, false) {
            Some(r) => assert(s + r =~= r),
            None => {},
        }
    } else {
        let c = s[0];
        let x = quote_body(s.drop_first()) + seq!['\''] + tail;
        lemma_read_quoted(s.drop_first(), tail);
        if c == '\'' {
            assert(w =~= seq!['\'', '\\', '\'', '\''] + x);
            assert(w[0] == '\'');
            let w1 = w.drop_first();
            assert(w1 =~= seq!['\\', '\'', '\''] + x);
            assert(w1[0] == '\\');
            assert(w1.drop_first()[0] == '\'');
            let w3 = w1.drop_first().drop_first();
            assert(w3 =~= seq!['\''] + x);
            assert(w3[0] == '\'');
            assert(w3.drop_first() =~= x);
            assert(read_word(w3, false) == read_word(x, true));
            assert(read_word(w1, false) == prepend(seq!['\''], read_word(w3, false)));
            assert(read_word(w, true) == read_word(w1, false));
        } else {
            assert(w =~= seq![c] + x);
            assert(w[0] == c);
            assert(w.drop_first() =~= x);
            assert(read_word(w, true) == prepend(seq![c], read_word(x, true)));
        }
        match read_word(tail, false) {
            Some(r) => {
                assert(seq![c] + (s.drop_first() + r) =~= s + r);
            },
            None => {},
        }
    }
}

/// The one word that a POSIX shell reads from `w`, if `w` is one word: an
/// empty text is no word at all.
pub open spec fn shell_word(w: Seq<char>) -> Option<Seq<char>> {
    if w.len() == 0 {
        None
    } else {
        read_word(w, false)
    }
}

/// Whatever the (non-empty) path, a POSIX shell reads its escaped form back
/// as exactly that path, in one word.
pub proof fn lemma_escape_reads_back(s: Seq<char>)
    requires
        s.len() > 0,
    ensures
        shell_word(escaped(s)) == Some(s),
{
    if all_safe(s) {
        lemma_read_safe(s);
    } else {
        let w = seq!['\''] + quote_body(s) + seq!['\''];
        lemma_read_quoted(s, Seq::empty());
        assert(w.drop_first() =~= quote_body(s) + seq!['\''] + Seq::<char>::empty());
        assert(w[0] == '\'');
        assert(s + Seq::<char>::empty() =~= s);
    }
}

/// A path made only of safe characters is passed through as it is.
pub proof fn lemma_escape_keeps_safe(s: Seq<char>)
    requires
        all_safe(s),
    ensures
        escaped(s) == s,
{
}

/// The shell word for `s`: `s` itself when all of it is safe, else `s`
/// between single quotes.
pub open spec fn escaped(s: Seq<char>) -> Seq<char> {
    if all_safe(s) {
        s
    } else {
        seq!['\''] + quote_body(s) + seq!['\'']
    }
}

/// Whether `c` may stand unquoted in a shell word.
pub fn safe_char(c: char) -> (r: bool)
    ensures
        r == is_safe_char(c),
{
    ('a' <= c && c <= 'z') || ('A' <= c && c <= 'Z') || ('0' <= c && c <= '9') || c == '-'
        || c == '_' || c == '.' || c == '/' || c == ':' || c == '@'
}

/// Quotes `s` for a POSIX shell, passing it through when every character is
/// safe.
pub fn escape(s: String) -> (r: String)
    ensures
        r@ == escaped(s@),
{
    let n = s.as_str().unicode_len();
    let mut i: usize = 0;
    let mut safe = true;
    while i < n
        invariant
            n == s@.len(),
            i <= n,
            safe == all_safe(s@.take(i as int)),
        decreases n - i,
    {
        let c = s.as_str().get_char(i);
        if !safe_char(c) {
            safe = false;
        }
        proof {
            let t = s@.take(i + 1);
            assert(t =~= s@.take(i as int).push(c));
            if all_safe(t) {
                assert(is_safe_char(t[i as int]));
                assert forall|k: int| 0 <= k < i implies is_safe_char(#[trigger] s@.take(i as int)[k]) by {
                    assert(t[k] == s@.take(i as int)[k]);
                }
            }
            if all_safe(s@.take(i as int)) && is_safe_char(c) {
                assert forall|k: int| 0 <= k < i + 1 implies is_safe_char(#[trigger] t[k]) by {
                    if k < i {
                        assert(t[k] == s@.take(i as int)[k]);
                    }
                }
            }
        }
        i = i + 1;
    }
    assert(s@.take(n as int) =~= s@);
    if safe {
        return s;
    }
    let mut out = String::from_str("'");
    proof {
        reveal_strlit("'");
    }
    let mut j: usize = 0;
    while j < n
        invariant
            n == s@.len(),
            j <= n,
            out@ == seq!['\''] + quote_body(s@.take(j as int)),
        decreases n - j,
    {
        let c = s.as_str().get_char(j);
        if c == '\'' {
            out.append("'\\''");
            proof {
                reveal_strlit("'\\''");
            }
        } else {
            out.append(s.as_str().substring_char(j, j + 1));
        }
        proof {
            let t = s@.take(j + 1);
            assert(t =~= s@.take(j as int).push(c));
            assert(s@.subrange(j as int, j + 1) =~= seq![c]);
            lemma_quote_body_push(s@.take(j as int), c);
            assert(out@ =~= seq!['\''] + quote_body(t));
        }
        j = j + 1;
    }
    out.append("'");
    assert(s@.take(n as int) =~= s@);
    assert(out@ =~= seq!['\''] + quote_body(s@) + seq!['\'']);
    out
}

} // verus!
