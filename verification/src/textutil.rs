//! Small text helpers: hex encoding, HTML escaping, SQL LIKE-pattern
//! escaping, and the normalizers used on configuration values.

use vstd::prelude::*;

use crate::strutil::{drop_leading_ws, has_prefix, is_ws, is_ws_char, lower_of, to_lowercase,
    trim_of, trim_str};

verus! {

/// The lowercase hex digit for `d`.
pub open spec fn hex_digit(d: int) -> char {
    if d < 10 {
        crate::dates::spec_digit(d)
    } else if d == 10 {
        'a'
    } else if d == 11 {
        'b'
    } else if d == 12 {
        'c'
    } else if d == 13 {
        'd'
    } else if d == 14 {
        'e'
    } else {
        'f'
    }
}

/// Two lowercase hex digits per byte, in order.
pub open spec fn hex_of(bs: Seq<u8>) -> Seq<char>
    decreases bs.len(),
{
    if bs.len() == 0 {
        Seq::empty()
    } else {
        hex_of(bs.drop_last()) + seq![
            hex_digit(bs.last() as int / 16),
            hex_digit(bs.last() as int % 16),
        ]
    }
}

fn append_hex_digit(out: &mut String, d: u8)
    requires
        d < 16,
    ensures
        final(out)@ == old(out)@ + seq![hex_digit(d as int)],
{
    proof {
        reveal_strlit("a");
        reveal_strlit("b");
        reveal_strlit("c");
        reveal_strlit("d");
        reveal_strlit("e");
        reveal_strlit("f");
        reveal_strlit("0");
        reveal_strlit("1");
        reveal_strlit("2");
        reveal_strlit("3");
        reveal_strlit("4");
        reveal_strlit("5");
        reveal_strlit("6");
        reveal_strlit("7");
        reveal_strlit("8");
        reveal_strlit("9");
    }
    if d == 0 {
        out.append("0");
    } else if d == 1 {
        out.append("1");
    } else if d == 2 {
        out.append("2");
    } else if d == 3 {
        out.append("3");
    } else if d == 4 {
        out.append("4");
    } else if d == 5 {
        out.append("5");
    } else if d == 6 {
        out.append("6");
    } else if d == 7 {
        out.append("7");
    } else if d == 8 {
        out.append("8");
    } else if d == 9 {
        out.append("9");
    } else if d == 10 {
        out.append("a");
    } else if d == 11 {
        out.append("b");
    } else if d == 12 {
        out.append("c");
    } else if d == 13 {
        out.append("d");
    } else if d == 14 {
        out.append("e");
    } else {
        out.append("f");
    }
    proof {
        assert(final(out)@ =~= old(out)@ + seq![hex_digit(d as int)]);
    }
}

/// Encode bytes as lowercase hex.
pub fn hex_encode(bytes: &[u8]) -> (r: String)
    ensures
        r@ == hex_of(bytes@),
{
    let mut out = String::new();
    let n = bytes.len();
    let mut i: usize = 0;
    proof {
        assert(bytes@.take(0) =~= Seq::<u8>::empty());
    }
    while i < n
        invariant
            0 <= i <= n,
            n == bytes@.len(),
            out@ == hex_of(bytes@.take(i as int)),
        decreases n - i,
    {
        let b = bytes[i];
        proof {
            assert(bytes@.take(i as int + 1).drop_last() =~= bytes@.take(i as int));
            assert(bytes@.take(i as int + 1).last() == bytes@[i as int]);
        }
        append_hex_digit(&mut out, b / 16);
        append_hex_digit(&mut out, b % 16);
        proof {
            assert(out@ =~= hex_of(bytes@.take(i as int + 1)));
        }
        i = i + 1;
    }
    proof {
        assert(bytes@.take(n as int) =~= bytes@);
    }
    out
}

/// What one character becomes under HTML escaping.
pub open spec fn html_piece(c: char) -> Seq<char> {
    if c == '&' {
        "&amp;"@
    } else if c == '<' {
        "&lt;"@
    } else if c == '>' {
        "&gt;"@
    } else if c == '"' {
        "&quot;"@
    } else if c == '\'' {
        "&#x27;"@
    } else {
        seq![c]
    }
}

/// HTML-escape a string: ampersands, angle brackets and both quote
/// characters are replaced by entities.
pub open spec fn html_escaped(s: Seq<char>) -> Seq<char>
    decreases s.len(),
{
    if s.len() == 0 {
        Seq::empty()
    } else {
        html_escaped(s.drop_last()) + html_piece(s.last())
    }
}

/// Escape a string for HTML text and attribute positions.
pub fn html_escape(input: &str) -> (r: String)
    ensures
        r@ == html_escaped(input@),
{
    let mut out = String::new();
    let n = input.unicode_len();
    let mut i: usize = 0;
    proof {
        assert(input@.take(0) =~= Seq::<char>::empty());
    }
    while i < n
        invariant
            0 <= i <= n,
            n == input@.len(),
            out@ == html_escaped(input@.take(i as int)),
        decreases n - i,
    {
        let c = input.get_char(i);
        proof {
            assert(input@.take(i as int + 1).drop_last() =~= input@.take(i as int));
            assert(input@.take(i as int + 1).last() == input@[i as int]);
        }
        if c == '&' {
            out.append("&amp;");
        } else if c == '<' {
            out.append("&lt;");
        } else if c == '>' {
            out.append("&gt;");
        } else if c == '"' {
            out.append("&quot;");
        } else if c == '\'' {
            out.append("&#x27;");
        } else {
            let piece = input.substring_char(i, i + 1);
            proof {
                assert(piece@ =~= seq![input@[i as int]]);
            }
            out.append(piece);
        }
        proof {
            assert(out@ =~= html_escaped(input@.take(i as int + 1)));
        }
        i = i + 1;
    }
    proof {
        assert(input@.take(n as int) =~= input@);
    }
    out
}

/// What one character becomes in a LIKE pattern: backslash, percent and
/// underscore get a backslash escape.
pub open spec fn like_piece(c: char) -> Seq<char> {
    if c == '\\' {
        seq!['\\', '\\']
    } else if c == '%' {
        seq!['\\', '%']
    } else if c == '_' {
        seq!['\\', '_']
    } else {
        seq![c]
    }
}

/// A string escaped for use as a literal LIKE-pattern prefix.
pub open spec fn like_escaped(s: Seq<char>) -> Seq<char>
    decreases s.len(),
{
    if s.len() == 0 {
        Seq::empty()
    } else {
        like_escaped(s.drop_last()) + like_piece(s.last())
    }
}

/// Escape `\\`, `%` and `_` so an attachment id can stand literally in a
/// LIKE pattern.
pub fn escape_like_prefix(value: &str) -> (r: String)
    ensures
        r@ == like_escaped(value@),
{
    proof {
        reveal_strlit("\\\\");
        reveal_strlit("\\%");
        reveal_strlit("\\_");
    }
    let mut out = String::new();
    let n = value.unicode_len();
    let mut i: usize = 0;
    proof {
        assert(value@.take(0) =~= Seq::<char>::empty());
    }
    while i < n
        invariant
            0 <= i <= n,
            n == value@.len(),
            out@ == like_escaped(value@.take(i as int)),
        decreases n - i,
    {
        let c = value.get_char(i);
        proof {
            reveal_strlit("\\\\");
            reveal_strlit("\\%");
            reveal_strlit("\\_");
            assert(value@.take(i as int + 1).drop_last() =~= value@.take(i as int));
            assert(value@.take(i as int + 1).last() == value@[i as int]);
        }
        if c == '\\' {
            out.append("\\\\");
        } else if c == '%' {
            out.append("\\%");
        } else if c == '_' {
            out.append("\\_");
        } else {
            let piece = value.substring_char(i, i + 1);
            proof {
                assert(piece@ =~= seq![value@[i as int]]);
            }
            out.append(piece);
        }
        proof {
            assert(out@ =~= like_escaped(value@.take(i as int + 1)));
        }
        i = i + 1;
    }
    proof {
        assert(value@.take(n as int) =~= value@);
    }
    out
}

/// Is this a stageable attachment record type?
pub fn is_attachment_staged_type(t: &str) -> (r: bool)
    ensures
        r == crate::records::is_stageable_type(t@),
{
    crate::strutil::str_eq(t, "todo_attachment") || crate::strutil::str_eq(
        t,
        "todo_attachment_chunk",
    )
}

/// A plan id normalized for lookup: trimmed, lowercased, and rejected
/// when nothing is left after trimming.
pub fn normalize_plan_id(raw: &str) -> (r: Option<String>)
    ensures
        if trim_of(raw@).len() == 0 {
            r is None
        } else {
            r is Some && r.unwrap()@ == lower_of(trim_of(raw@))
        },
{
    let id = to_lowercase(trim_str(raw));
    if id.as_str().unicode_len() == 0 {
        None
    } else {
        Some(id)
    }
}

/// The admin entry path normalized: trimmed, `/admin` when empty, a
/// leading slash added when missing, trailing slashes removed (keeping a
/// lone root slash).
pub open spec fn normalized_path(raw: Seq<char>) -> Seq<char> {
    let t = trim_of(raw);
    if t.len() == 0 {
        "/admin"@
    } else {
        let w = if t[0] == '/' {
            t
        } else {
            seq!['/'] + t
        };
        w.take(last_non_slash_end(w))
    }
}

/// The cut point that removes trailing slashes but keeps index 1.
pub open spec fn last_non_slash_end(s: Seq<char>) -> int
    decreases s.len(),
{
    if s.len() <= 1 {
        s.len() as int
    } else if s[s.len() - 1] == '/' {
        last_non_slash_end(s.drop_last())
    } else {
        s.len() as int
    }
}

proof fn lemma_lnse_le(s: Seq<char>)
    ensures
        0 <= last_non_slash_end(s) <= s.len(),
    decreases s.len(),
{
    if s.len() > 1 && s[s.len() - 1] == '/' {
        lemma_lnse_le(s.drop_last());
    }
}

/// Normalize a configured path prefix.
pub fn normalize_path_prefix(raw: &str) -> (r: String)
    ensures
        r@ == normalized_path(raw@),
{
    let t = trim_str(raw);
    let n = t.unicode_len();
    if n == 0 {
        return "/admin".to_owned();
    }
    let mut w: String = if t.get_char(0) == '/' {
        t.to_owned()
    } else {
        let mut base = "/".to_owned();
        proof {
            reveal_strlit("/");
        }
        base.append(t);
        base
    };
    proof {
        if trim_of(raw@)[0] == '/' {
            assert(w@ =~= trim_of(raw@));
        } else {
            reveal_strlit("/");
            assert(w@ =~= seq!['/'] + trim_of(raw@));
        }
    }
    let wlen = w.as_str().unicode_len();
    let mut end: usize = wlen;
    proof {
        assert(w@.take(wlen as int) =~= w@);
        lemma_lnse_le(w@);
    }
    while end > 1 && w.as_str().get_char(end - 1) == '/'
        invariant
            1 <= end <= wlen || (wlen == 0 && end == 0),
            wlen == w@.len(),
            last_non_slash_end(w@) == last_non_slash_end(w@.take(end as int)),
            last_non_slash_end(w@.take(end as int)) <= end,
        decreases end,
    {
        proof {
            assert(w@.take(end as int).drop_last() =~= w@.take(end as int - 1));
            assert(w@.take(end as int).len() == end);
            assert(w@.take(end as int)[end - 1] == w@[end - 1]);
            lemma_lnse_le(w@.take(end as int - 1));
        }
        end = end - 1;
    }
    proof {
        assert(w@.take(wlen as int) =~= w@);
        if end > 1 {
            assert(w@.take(end as int)[end - 1] == w@[end - 1]);
            assert(last_non_slash_end(w@.take(end as int)) == end);
        } else {
            assert(last_non_slash_end(w@.take(end as int)) == end);
        }
    }
    let out = w.as_str().substring_char(0, end);
    proof {
        assert(out@ =~= w@.take(last_non_slash_end(w@)));
    }
    out.to_owned()
}

/// An environment value unquoted: trimmed, then one pair of surrounding
/// single or double quotes removed.
pub open spec fn unquoted(raw: Seq<char>) -> Seq<char> {
    let t = trim_of(raw);
    if t.len() >= 2 && t[0] == '\'' && t[t.len() - 1] == '\'' {
        t.subrange(1, t.len() - 1)
    } else if t.len() >= 2 && t[0] == '"' && t[t.len() - 1] == '"' {
        t.subrange(1, t.len() - 1)
    } else {
        t
    }
}

/// Strip one pair of surrounding quotes from a configuration value.
pub fn unquote_env_json(raw: &str) -> (r: String)
    ensures
        r@ == unquoted(raw@),
{
    let t = trim_str(raw);
    let n = t.unicode_len();
    if n >= 2 {
        let c0 = t.get_char(0);
        let cl = t.get_char(n - 1);
        if (c0 == '\'' && cl == '\'') || (c0 == '"' && cl == '"') {
            let inner = t.substring_char(1, n - 1);
            proof {
                assert(inner@ =~= trim_of(raw@).subrange(1, trim_of(raw@).len() - 1));
            }
            return inner.to_owned();
        }
    }
    t.to_owned()
}

/// Are cookies to be marked secure: does the configured base URL start
/// with `https://` after leading white space, case-insensitively?
pub fn cookie_secure_flag(base_url: &str) -> (r: bool)
    ensures
        r == has_prefix(lower_of(drop_leading_ws(base_url@)), "https://"@),
{
    let len = base_url.unicode_len();
    let mut start: usize = 0;
    while start < len && is_ws(base_url.get_char(start))
        invariant
            0 <= start <= len,
            len == base_url@.len(),
            forall|j: int| 0 <= j < start ==> is_ws_char(base_url@[j]),
        decreases len - start,
    {
        start = start + 1;
    }
    let t = base_url.substring_char(start, len);
    proof {
        crate::strutil::lemma_drop_leading_ws_skip_pub(base_url@, start as int);
        assert(t@ =~= base_url@.skip(start as int));
    }
    let lowered = to_lowercase(t);
    crate::strutil::starts_with(lowered.as_str(), "https://")
}

/// Escape a string for HTML, under the short name the templates use.
pub fn h(input: &str) -> (r: String)
    ensures
        r@ == html_escaped(input@),
{
    html_escape(input)
}

/// A dashboard statistic card with an escaped label and value.
pub fn stat_card(label: &str, value: &str) -> (r: String)
    ensures
        r@ == "<div class=\"card p-5\" data-spotlight>\n  <div class=\"text-xs font-medium subtle\">"@
            + html_escaped(label@)
            + "</div>\n  <div class=\"mt-2 text-2xl font-semibold tracking-tight\">"@
            + html_escaped(value@) + "</div>\n</div>"@,
{
    let mut out: String =
        "<div class=\"card p-5\" data-spotlight>\n  <div class=\"text-xs font-medium subtle\">".to_owned();
    let l = html_escape(label);
    out.append(l.as_str());
    out.append("</div>\n  <div class=\"mt-2 text-2xl font-semibold tracking-tight\">");
    let v = html_escape(value);
    out.append(v.as_str());
    out.append("</div>\n</div>");
    out
}

/// Does `s` contain `p` as a contiguous run?
pub open spec fn contains_seq(s: Seq<char>, p: Seq<char>) -> bool {
    exists|i: int| 0 <= i <= s.len() - p.len() && #[trigger] s.subrange(i, i + p.len()) == p
}

/// Substring search.
pub fn contains_sub(s: &str, p: &str) -> (r: bool)
    ensures
        r == contains_seq(s@, p@),
{
    let n = s.unicode_len();
    let m = p.unicode_len();
    if m > n {
        proof {
            assert(!contains_seq(s@, p@));
        }
        return false;
    }
    if m == 0 {
        proof {
            assert(s@.subrange(0, 0 + p@.len() as int) =~= p@);
            assert(contains_seq(s@, p@));
        }
        return true;
    }
    let mut i: usize = 0;
    while i <= n - m
        invariant
            0 <= i,
            i <= n - m + 1,
            1 <= m <= n,
            n == s@.len(),
            m == p@.len(),
            forall|k: int| 0 <= k < i ==> #[trigger] s@.subrange(k, k + p@.len()) != p@,
        decreases n - m - i + 1,
    {
        let mut j: usize = 0;
        let mut all = true;
        while j < m
            invariant
                0 <= j <= m,
                i + m <= n,
                n == s@.len(),
                m == p@.len(),
                all ==> forall|k: int| 0 <= k < j ==> s@[i + k] == p@[k],
                !all ==> s@.subrange(i as int, i + p@.len()) != p@,
            decreases m - j,
        {
            if s.get_char(i + j) != p.get_char(j) {
                proof {
                    assert(s@.subrange(i as int, i + p@.len())[j as int] != p@[j as int]);
                }
                all = false;
                j = m;
            } else {
                j = j + 1;
            }
        }
        if all {
            proof {
                assert(s@.subrange(i as int, i + p@.len()) =~= p@);
            }
            return true;
        }
        i = i + 1;
    }
    proof {
        if contains_seq(s@, p@) {
            let k = choose|k: int| 0 <= k <= s@.len() - p@.len() && #[trigger] s@.subrange(k, k + p@.len()) == p@;
            assert(k < i);
            assert(false);
        }
    }
    false
}

/// Validate a post-login redirect target: it must be a same-site path,
/// not protocol-relative, without a scheme or backslashes.
pub fn validate_return_to(input: &str) -> (r: Option<&str>)
    ensures
        ({
            let t = trim_of(input@);
            let ok = t.len() > 0 && t[0] == '/' && !(t.len() >= 2 && t[1] == '/') && !contains_seq(
                t,
                "://"@,
            ) && !contains_seq(t, seq!['\\']);
            if ok {
                r is Some && r.unwrap()@ == t
            } else {
                r is None
            }
        }),
{
    let t = trim_str(input);
    let n = t.unicode_len();
    if n == 0 || t.get_char(0) != '/' {
        return None;
    }
    if n >= 2 && t.get_char(1) == '/' {
        return None;
    }
    if contains_sub(t, "://") {
        return None;
    }
    if contains_sub(t, "\\") {
        proof {
            reveal_strlit("\\");
            assert("\\"@ =~= seq!['\\']);
        }
        return None;
    }
    proof {
        reveal_strlit("\\");
        assert("\\"@ =~= seq!['\\']);
    }
    Some(t)
}

} // verus!
