//! The rules of the local gallery server: which file names it serves, which
//! `Host` headers it answers, how it reads a run request, and the labels and
//! messages it shows.

use vstd::prelude::*;
use crate::automaton::SimulationResult;
use crate::decimal::{decimal, push_usize};
use crate::export::{
    align_label, align_label_text, clamp, fill_label, fill_label_text, tile_count, tile_count_spec,
    tile_data, tile_end, tile_payload, tile_rows, tile_rows_spec, tile_start, full_rows,
};
use crate::ic::{first_row_ic, first_row_ic_text};
use crate::sim::{boundary_name, BoundaryMode, PaddingAlign, PaddingFill};
use crate::text::{
    chars_eq, chars_of, last_occurrence, last_occurrence_below, push_chars, replace_all,
    replace_chars, rfind_chars, starts_with, string_of, chars_occur_at,
};

verus! {

/// ASCII upper case of one character; other characters are unchanged.
pub open spec fn ascii_upper(c: char) -> char {
    if 'a' <= c <= 'z' {
        ((c as int) - 32) as char
    } else {
        c
    }
}

/// ASCII upper case of every character of `s`.
pub open spec fn upper_all(s: Seq<char>) -> Seq<char> {
    s.map_values(|c: char| ascii_upper(c))
}

/// `char::to_ascii_uppercase`.
pub fn to_ascii_upper(c: char) -> (u: char)
    ensures
        u == ascii_upper(c),
{
    if c >= 'a' && c <= 'z' {
        let b = (c as u32) - 32;
        assert(b < 128);
        (b as u8) as char
    } else {
        c
    }
}

/// `str::eq_ignore_ascii_case` on characters.
pub fn eq_ignore_ascii_case(a: &[char], b: &[char]) -> (r: bool)
    ensures
        r == (upper_all(a@) == upper_all(b@)),
{
    if a.len() != b.len() {
        proof {
            assert(upper_all(a@).len() != upper_all(b@).len());
        }
        return false;
    }
    let mut i: usize = 0;
    while i < a.len()
        invariant
            a@.len() == b@.len(),
            i <= a@.len(),
            forall|k: int| 0 <= k < i ==> #[trigger] ascii_upper(a@[k]) == ascii_upper(b@[k]),
        decreases a@.len() - i,
    {
        if to_ascii_upper(a[i]) != to_ascii_upper(b[i]) {
            proof {
                assert(upper_all(a@)[i as int] != upper_all(b@)[i as int]);
            }
            return false;
        }
        i = i + 1;
    }
    proof {
        assert(upper_all(a@) =~= upper_all(b@));
    }
    true
}


/// An ASCII letter or digit.
pub open spec fn is_ascii_alnum(c: char) -> bool {
    ('0' <= c <= '9') || ('A' <= c <= 'Z') || ('a' <= c <= 'z')
}

/// The characters a served file name may contain.
pub open spec fn filename_char(c: char) -> bool {
    is_ascii_alnum(c) || c == '.' || c == '_' || c == '-'
}

/// The position of the first `c` in `s`.
pub open spec fn first_index_of(s: Seq<char>, c: char) -> Option<int>
    decreases s.len(),
{
    if s.len() == 0 {
        None
    } else if s[0] == c {
        Some(0)
    } else {
        match first_index_of(s.drop_first(), c) {
            Some(i) => Some(i + 1),
            None => None,
        }
    }
}

/// The part of a file name before its first '.'.
pub open spec fn stem(s: Seq<char>) -> Seq<char> {
    match first_index_of(s, '.') {
        Some(i) => s.take(i),
        None => s,
    }
}

/// The Windows device names, in the order they are checked.
pub open spec fn reserved_name_spec(i: int) -> Seq<char> {
    if i == 0 { "CON"@ }
    else if i == 1 { "PRN"@ }
    else if i == 2 { "AUX"@ }
    else if i == 3 { "NUL"@ }
    else if i == 4 { "COM1"@ }
    else if i == 5 { "COM2"@ }
    else if i == 6 { "COM3"@ }
    else if i == 7 { "COM4"@ }
    else if i == 8 { "COM5"@ }
    else if i == 9 { "COM6"@ }
    else if i == 10 { "COM7"@ }
    else if i == 11 { "COM8"@ }
    else if i == 12 { "COM9"@ }
    else if i == 13 { "LPT1"@ }
    else if i == 14 { "LPT2"@ }
    else if i == 15 { "LPT3"@ }
    else if i == 16 { "LPT4"@ }
    else if i == 17 { "LPT5"@ }
    else if i == 18 { "LPT6"@ }
    else if i == 19 { "LPT7"@ }
    else if i == 20 { "LPT8"@ }
    else { "LPT9"@ }
}

/// How many device names there are.
pub open spec fn reserved_count() -> int {
    22
}

fn reserved_name(i: usize) -> (s: &'static str)
    requires
        i < 22,
    ensures
        s@ == reserved_name_spec(i as int),
{
    match i {
        0 => "CON",
        1 => "PRN",
        2 => "AUX",
        3 => "NUL",
        4 => "COM1",
        5 => "COM2",
        6 => "COM3",
        7 => "COM4",
        8 => "COM5",
        9 => "COM6",
        10 => "COM7",
        11 => "COM8",
        12 => "COM9",
        13 => "LPT1",
        14 => "LPT2",
        15 => "LPT3",
        16 => "LPT4",
        17 => "LPT5",
        18 => "LPT6",
        19 => "LPT7",
        20 => "LPT8",
        _ => "LPT9",
    }
}

/// Is `t`, ignoring ASCII case, one of the Windows device names?
pub open spec fn is_reserved_stem(t: Seq<char>) -> bool {
    exists|i: int| 0 <= i < reserved_count() && upper_all(t) == upper_all(#[trigger] reserved_name_spec(i))
}

/// A name the server may join to its runs directory: 1 to 200 characters,
/// only ASCII letters, digits, '.', '_' and '-', at least one letter or
/// digit (so neither "." nor ".."), and no Windows device name before the
/// first '.'.
pub open spec fn safe_filename(s: Seq<char>) -> bool {
    &&& 0 < s.len() <= 200
    &&& forall|i: int| 0 <= i < s.len() ==> #[trigger] filename_char(s[i])
    &&& exists|i: int| 0 <= i < s.len() && #[trigger] is_ascii_alnum(s[i])
    &&& !is_reserved_stem(stem(s))
}

/// What `first_index_of` finds: the position of the first `c`, or none
/// when `c` does not occur.
pub proof fn lemma_first_index_of(s: Seq<char>, c: char)
    ensures
        first_index_of(s, c) matches Some(i) ==> 0 <= i < s.len() && s[i] == c && forall|j: int|
            0 <= j < i ==> s[j] != c,
        first_index_of(s, c) is None ==> forall|j: int| 0 <= j < s.len() ==> s[j] != c,
    decreases s.len(),
{
    if s.len() > 0 && s[0] != c {
        lemma_first_index_of(s.drop_first(), c);
        assert forall|j: int| 1 <= j < s.len() implies s[j] == s.drop_first()[j - 1] by {}
    }
}

/// A `c` with no `c` before it is the one `first_index_of` finds.
pub proof fn lemma_first_index_at(s: Seq<char>, c: char, i: int)
    requires
        0 <= i < s.len(),
        s[i] == c,
        forall|j: int| 0 <= j < i ==> s[j] != c,
    ensures
        first_index_of(s, c) == Some(i),
    decreases i,
{
    if i > 0 {
        assert forall|j: int| 0 <= j < i - 1 implies s.drop_first()[j] != c by {
            assert(s.drop_first()[j] == s[j + 1]);
        }
        lemma_first_index_at(s.drop_first(), c, i - 1);
    }
}

/// The first position of `c` in `v`.
pub fn find_char(v: &[char], c: char) -> (r: Option<usize>)
    ensures
        r matches Some(i) ==> first_index_of(v@, c) == Some(i as int) && i < v@.len(),
        r is None ==> first_index_of(v@, c) is None,
{
    let mut i: usize = 0;
    proof {
        assert(v@.skip(0) =~= v@);
    }
    while i < v.len()
        invariant
            i <= v@.len(),
            first_index_of(v@, c) == (match first_index_of(v@.skip(i as int), c) {
                Some(j) => Some(j + i),
                None => None::<int>,
            }),
        decreases v@.len() - i,
    {
        proof {
            assert(v@.skip(i as int).drop_first() =~= v@.skip(i + 1));
        }
        if v[i] == c {
            return Some(i);
        }
        i = i + 1;
    }
    proof {
        assert(v@.skip(i as int).len() == 0);
    }
    None
}

/// Is `name` safe to serve from, or delete in, the runs directory? See
/// [`safe_filename`].
pub fn is_safe_filename(name: &str) -> (r: bool)
    ensures
        r == safe_filename(name@),
{
    let v = chars_of(name);
    let n = v.len();
    if n == 0 || n > 200 {
        return false;
    }
    let mut i: usize = 0;
    let mut any_alnum = false;
    while i < n
        invariant
            n == v@.len(),
            v@ == name@,
            i <= n,
            forall|k: int| 0 <= k < i ==> #[trigger] filename_char(v@[k]),
            any_alnum == exists|k: int| 0 <= k < i && #[trigger] is_ascii_alnum(v@[k]),
        decreases n - i,
    {
        let c = v[i];
        let alnum = (c >= '0' && c <= '9') || (c >= 'A' && c <= 'Z') || (c >= 'a' && c <= 'z');
        if !(alnum || c == '.' || c == '_' || c == '-') {
            proof {
                assert(!filename_char(v@[i as int]));
                assert(!filename_char(name@[i as int]));
            }
            return false;
        }
        if alnum {
            any_alnum = true;
        }
        proof {
            if !alnum && any_alnum {
                let k = choose|k: int| 0 <= k < i && #[trigger] is_ascii_alnum(v@[k]);
                assert(0 <= k < i + 1 && is_ascii_alnum(v@[k]));
            }
            if alnum {
                assert(is_ascii_alnum(v@[i as int]));
            }
        }
        i = i + 1;
    }
    if !any_alnum {
        return false;
    }
    let st: Vec<char> = match find_char(v.as_slice(), '.') {
        Some(p) => {
            let mut t: Vec<char> = Vec::new();
            let mut k: usize = 0;
            while k < p
                invariant
                    p <= v@.len(),
                    k <= p,
                    t@ =~= v@.take(k as int),
                decreases p - k,
            {
                t.push(v[k]);
                k = k + 1;
            }
            t
        },
        None => v.clone(),
    };
    proof {
        assert(st@ == stem(v@));
    }
    let mut j: usize = 0;
    while j < 22
        invariant
            j <= 22,
            v@ == name@,
            st@ == stem(v@),
            forall|k: int| 0 <= k < j ==> upper_all(st@) != upper_all(#[trigger] reserved_name_spec(k)),
        decreases 22 - j,
    {
        let r = chars_of(reserved_name(j));
        if eq_ignore_ascii_case(st.as_slice(), r.as_slice()) {
            proof {
                assert(upper_all(st@) == upper_all(reserved_name_spec(j as int)));
                assert(is_reserved_stem(stem(name@)));
            }
            return false;
        }
        j = j + 1;
    }
    true
}


/// The host name a `Host` header names: the text inside `[...]` for an IPv6
/// literal (none when the `]` is missing), otherwise the text before the
/// last ':' (the whole header when there is no ':').
pub open spec fn host_name(h: Seq<char>) -> Option<Seq<char>> {
    if h.len() > 0 && h[0] == '[' {
        match first_index_of(h.drop_first(), ']') {
            Some(i) => Some(h.drop_first().take(i)),
            None => None,
        }
    } else {
        match last_occurrence(h, seq![':']) {
            Some(i) => Some(h.take(i)),
            None => Some(h),
        }
    }
}

/// A `Host` header that names this machine: "localhost" in any ASCII case,
/// "127.0.0.1" or "::1", with or without a port.
pub open spec fn local_host(h: Seq<char>) -> bool {
    match host_name(h) {
        Some(n) => upper_all(n) == upper_all("localhost"@) || n == "127.0.0.1"@ || n == "::1"@,
        None => false,
    }
}

/// Does a `Host` header name this machine? Requests carrying any other name
/// (as in DNS rebinding) are refused before they reach a handler.
pub fn host_is_local(host: &str) -> (r: bool)
    ensures
        r == local_host(host@),
{
    let v = chars_of(host);
    let name: Vec<char> = if v.len() > 0 && v[0] == '[' {
        let mut rest: Vec<char> = Vec::new();
        let mut i: usize = 1;
        while i < v.len()
            invariant
                1 <= i <= v@.len(),
                rest@ =~= v@.drop_first().take(i - 1),
            decreases v@.len() - i,
        {
            rest.push(v[i]);
            i = i + 1;
        }
        proof {
            assert(rest@ =~= v@.drop_first());
        }
        match find_char(rest.as_slice(), ']') {
            Some(p) => {
                let mut t: Vec<char> = Vec::new();
                let mut k: usize = 0;
                while k < p
                    invariant
                        p <= rest@.len(),
                        k <= p,
                        t@ =~= rest@.take(k as int),
                    decreases p - k,
                {
                    t.push(rest[k]);
                    k = k + 1;
                }
                t
            },
            None => {
                return false;
            },
        }
    } else {
        let mut colon: Vec<char> = Vec::new();
        colon.push(':');
        proof {
            assert(colon@ =~= seq![':']);
        }
        match rfind_chars(v.as_slice(), colon.as_slice()) {
            Some(p) => {
                proof {
                    lemma_last_occurrence_bound(v@, colon@);
                }
                let mut t: Vec<char> = Vec::new();
                let mut k: usize = 0;
                while k < p
                    invariant
                        p <= v@.len(),
                        k <= p,
                        t@ =~= v@.take(k as int),
                    decreases p - k,
                {
                    t.push(v[k]);
                    k = k + 1;
                }
                t
            },
            None => v.clone(),
        }
    };
    proof {
        assert(host_name(host@) == Some(name@));
    }
    let lh = chars_of("localhost");
    let lo = chars_of("127.0.0.1");
    let v6 = chars_of("::1");
    eq_ignore_ascii_case(name.as_slice(), lh.as_slice()) || chars_eq(name.as_slice(), lo.as_slice())
        || chars_eq(name.as_slice(), v6.as_slice())
}

proof fn lemma_last_occurrence_below_bound(s: Seq<char>, p: Seq<char>, end: int)
    ensures
        last_occurrence_below(s, p, end) matches Some(i) ==> 0 <= i < end && crate::text::occurs_at(
            s,
            p,
            i,
        ),
    decreases end,
{
    if end > 0 {
        lemma_last_occurrence_below_bound(s, p, end - 1);
    }
}

/// The last occurrence found lies within `s`.
pub proof fn lemma_last_occurrence_bound(s: Seq<char>, p: Seq<char>)
    ensures
        last_occurrence(s, p) matches Some(i) ==> 0 <= i && i + p.len() <= s.len(),
{
    lemma_last_occurrence_below_bound(s, p, s.len() + 1int);
}


/// The form-facing text of a JSON body rejection: the deserializer's prefix
/// and the trailing " at line ..." position are dropped, type names become
/// plain words, and the result reads "Invalid input — ...".
pub open spec fn friendly_text(raw: Seq<char>) -> Seq<char> {
    let prefix = "Failed to deserialize the JSON body into the target type: "@;
    let m1 = if starts_with(raw, prefix) {
        raw.skip(prefix.len() as int)
    } else {
        raw
    };
    let m2 = match last_occurrence(m1, " at line "@) {
        Some(i) => m1.take(i),
        None => m1,
    };
    let m3 = replace_all(
        m2,
        "expected u8"@,
        "expected a whole number between 0 and 255"@,
    );
    let m4 = replace_all(m3, "expected usize"@, "expected a non-negative whole number"@);
    let m5 = replace_all(m4, "expected u32"@, "expected a non-negative whole number"@);
    let m6 = replace_all(m5, "invalid type: null,"@, "the field is empty;"@);
    "Invalid input — "@ + m6
}

fn replace_literal(v: Vec<char>, from: &str, to: &str) -> (r: Vec<char>)
    requires
        from@.len() > 0,
    ensures
        r@ == replace_all(v@, from@, to@),
{
    let f = chars_of(from);
    let t = chars_of(to);
    replace_chars(v.as_slice(), f.as_slice(), t.as_slice())
}

/// Turn the deserializer's message into something a person filling in the
/// form can act on; see [`friendly_text`].
pub fn friendly_json_error(raw: &str) -> (s: String)
    ensures
        s@ == friendly_text(raw@),
{
    proof {
        reveal_strlit("expected u8");
        reveal_strlit("expected usize");
        reveal_strlit("expected u32");
        reveal_strlit("invalid type: null,");
    }
    let v = chars_of(raw);
    let prefix = chars_of("Failed to deserialize the JSON body into the target type: ");
    let m1: Vec<char> = if chars_occur_at(v.as_slice(), prefix.as_slice(), 0) {
        let mut t: Vec<char> = Vec::new();
        let mut i: usize = prefix.len();
        while i < v.len()
            invariant
                prefix@.len() <= i <= v@.len(),
                t@ =~= v@.subrange(prefix@.len() as int, i as int),
            decreases v@.len() - i,
        {
            t.push(v[i]);
            i = i + 1;
        }
        proof {
            assert(t@ =~= v@.skip(prefix@.len() as int));
        }
        t
    } else {
        v
    };
    let at_line = chars_of(" at line ");
    let m2: Vec<char> = match rfind_chars(m1.as_slice(), at_line.as_slice()) {
        Some(p) => {
            proof {
                lemma_last_occurrence_bound(m1@, at_line@);
            }
            let mut t: Vec<char> = Vec::new();
            let mut k: usize = 0;
            while k < p
                invariant
                    p <= m1@.len(),
                    k <= p,
                    t@ =~= m1@.take(k as int),
                decreases p - k,
            {
                t.push(m1[k]);
                k = k + 1;
            }
            t
        },
        None => m1,
    };
    let m3 = replace_literal(m2, "expected u8", "expected a whole number between 0 and 255");
    let m4 = replace_literal(m3, "expected usize", "expected a non-negative whole number");
    let m5 = replace_literal(m4, "expected u32", "expected a non-negative whole number");
    let m6 = replace_literal(m5, "invalid type: null,", "the field is empty;");
    let mut s = String::new();
    s.append("Invalid input — ");
    push_chars(&mut s, m6.as_slice());
    s
}

/// A manifest field with its tabs and line breaks turned into spaces.
pub open spec fn tsv_field(s: Seq<char>) -> Seq<char> {
    s.map_values(|c: char| if c == '\t' || c == '\n' || c == '\r' { ' ' } else { c })
}

/// Make a value safe for one tab-separated manifest field.
pub fn sanitize_tsv(s: &str) -> (r: String)
    ensures
        r@ == tsv_field(s@),
{
    let v = chars_of(s);
    let mut out: Vec<char> = Vec::new();
    let mut i: usize = 0;
    while i < v.len()
        invariant
            i <= v@.len(),
            out@ =~= tsv_field(v@).take(i as int),
        decreases v@.len() - i,
    {
        let c = v[i];
        out.push(if c == '\t' || c == '\n' || c == '\r' { ' ' } else { c });
        i = i + 1;
    }
    proof {
        assert(out@ =~= tsv_field(v@));
    }
    string_of(out.as_slice())
}

/// A lowercase hexadecimal digit.
pub open spec fn hex_char(d: nat) -> char {
    if d < 10 {
        (48 + d) as char
    } else {
        (87 + d) as char
    }
}

/// How `json_str_escape` writes one character.
pub open spec fn json_escape_char(c: char) -> Seq<char> {
    if c == '"' {
        "\\\""@
    } else if c == '\\' {
        "\\\\"@
    } else if c == '\n' {
        "\\n"@
    } else if c == '\r' {
        "\\r"@
    } else if c == '\t' {
        "\\t"@
    } else if c == '<' {
        "\\u003c"@
    } else if c == '>' {
        "\\u003e"@
    } else if c == '/' {
        "\\u002f"@
    } else if (c as u32) < 0x20 {
        "\\u00"@ + seq![hex_char(((c as u32) / 16) as nat), hex_char(((c as u32) % 16) as nat)]
    } else {
        seq![c]
    }
}

/// Each character of `s` escaped for a JSON string literal.
pub open spec fn json_escaped(s: Seq<char>) -> Seq<char>
    decreases s.len(),
{
    if s.len() == 0 {
        Seq::empty()
    } else {
        json_escaped(s.drop_last()) + json_escape_char(s.last())
    }
}

/// Escape `s` for a JSON string literal that sits inside an HTML
/// `<script>` element: quotes, backslashes and control characters are
/// escaped, and `<`, `>` and `/` are written as `\u` escapes.
pub fn json_str_escape(s: &str) -> (r: String)
    ensures
        r@ == json_escaped(s@),
{
    let v = chars_of(s);
    let mut out = String::new();
    let mut i: usize = 0;
    while i < v.len()
        invariant
            i <= v@.len(),
            out@ == json_escaped(v@.take(i as int)),
        decreases v@.len() - i,
    {
        let c = v[i];
        let ghost before = out@;
        if c == '"' {
            out.append("\\\"");
        } else if c == '\\' {
            out.append("\\\\");
        } else if c == '\n' {
            out.append("\\n");
        } else if c == '\r' {
            out.append("\\r");
        } else if c == '\t' {
            out.append("\\t");
        } else if c == '<' {
            out.append("\\u003c");
        } else if c == '>' {
            out.append("\\u003e");
        } else if c == '/' {
            out.append("\\u002f");
        } else if (c as u32) < 0x20 {
            let n = c as u32;
            out.append("\\u00");
            crate::text::push_char(&mut out, hex_digit(n / 16));
            crate::text::push_char(&mut out, hex_digit(n % 16));
        } else {
            crate::text::push_char(&mut out, c);
        }
        proof {
            assert(v@.take(i + 1).drop_last() =~= v@.take(i as int));
            assert(out@ =~= before + json_escape_char(c));
        }
        i = i + 1;
    }
    proof {
        assert(v@.take(i as int) =~= v@);
    }
    out
}

/// The lowercase hexadecimal digit for `d < 16`.
pub fn hex_digit(d: u32) -> (c: char)
    requires
        d < 16,
    ensures
        c == hex_char(d as nat),
{
    if d < 10 {
        ((48 + d) as u8) as char
    } else {
        ((87 + d) as u8) as char
    }
}


/// The boundary modes a run request may name.
pub open spec fn boundary_from(s: Seq<char>) -> Option<BoundaryMode> {
    if s == "ZeroPadded"@ {
        Some(BoundaryMode::ZeroPadded)
    } else if s == "Wrap"@ {
        Some(BoundaryMode::Wrap)
    } else {
        None
    }
}

/// The padding alignments a run request may name.
pub open spec fn align_from(s: Seq<char>) -> Option<PaddingAlign> {
    if s == "Before"@ {
        Some(PaddingAlign::Before)
    } else if s == "After"@ {
        Some(PaddingAlign::After)
    } else if s == "Center"@ {
        Some(PaddingAlign::Center)
    } else {
        None
    }
}

/// The fills a run request may name.
pub open spec fn fill_from(s: Seq<char>) -> Option<PaddingFill> {
    if s == "Zero"@ {
        Some(PaddingFill::Zero)
    } else if s == "One"@ {
        Some(PaddingFill::One)
    } else {
        None
    }
}

/// Read a boundary mode: "ZeroPadded" or "Wrap".
pub fn parse_boundary(s: &str) -> (r: Option<BoundaryMode>)
    ensures
        r == boundary_from(s@),
{
    if crate::text::str_eq(s, "ZeroPadded") {
        Some(BoundaryMode::ZeroPadded)
    } else if crate::text::str_eq(s, "Wrap") {
        Some(BoundaryMode::Wrap)
    } else {
        None
    }
}

/// Read a padding alignment: "Before", "After" or "Center".
pub fn parse_align(s: &str) -> (r: Option<PaddingAlign>)
    ensures
        r == align_from(s@),
{
    if crate::text::str_eq(s, "Before") {
        Some(PaddingAlign::Before)
    } else if crate::text::str_eq(s, "After") {
        Some(PaddingAlign::After)
    } else if crate::text::str_eq(s, "Center") {
        Some(PaddingAlign::Center)
    } else {
        None
    }
}

/// Read a padding fill: "Zero" or "One".
pub fn parse_fill(s: &str) -> (r: Option<PaddingFill>)
    ensures
        r == fill_from(s@),
{
    if crate::text::str_eq(s, "Zero") {
        Some(PaddingFill::Zero)
    } else if crate::text::str_eq(s, "One") {
        Some(PaddingFill::One)
    } else {
        None
    }
}

/// The label of a boundary mode in the viewer.
pub open spec fn boundary_label_text(b: BoundaryMode) -> Seq<char> {
    match b {
        BoundaryMode::ZeroPadded => "Padded"@,
        BoundaryMode::Wrap => "Wrap-around"@,
    }
}

/// "Padded" or "Wrap-around".
pub fn boundary_label(b: BoundaryMode) -> (s: &'static str)
    ensures
        s@ == boundary_label_text(b),
{
    match b {
        BoundaryMode::ZeroPadded => "Padded",
        BoundaryMode::Wrap => "Wrap-around",
    }
}

/// The cells a seed text stands for, one per character: 1 for a non-zero
/// decimal digit, 0 for '0' and for any character that is not a digit.
pub open spec fn seed_cells(s: Seq<char>) -> Seq<u8> {
    Seq::new(s.len(), |i: int| if '1' <= s[i] <= '9' { 1u8 } else { 0u8 })
}

/// Read the seed typed into the form; see [`seed_cells`].
pub fn parse_seed(s: &str) -> (cells: Vec<u8>)
    ensures
        cells@ == seed_cells(s@),
        crate::sim::is_binary(cells@),
{
    let v = chars_of(s);
    let mut out: Vec<u8> = Vec::new();
    let mut i: usize = 0;
    while i < v.len()
        invariant
            i <= v@.len(),
            v@ == s@,
            out@ == seed_cells(v@).take(i as int),
        decreases v@.len() - i,
    {
        let c = v[i];
        out.push(if c >= '1' && c <= '9' { 1 } else { 0 });
        proof {
            assert(out@ =~= seed_cells(v@).take(i + 1));
        }
        i = i + 1;
    }
    proof {
        assert(out@ =~= seed_cells(v@));
    }
    out
}


/// The viewer's initial cell size: the requested size clamped to 1..=64,
/// or for 0 ("auto") about 1600 pixels across, clamped to 1..=16.
pub open spec fn viewer_cell_size_spec(cell_size: u32, width: nat) -> int {
    if cell_size == 0 {
        clamp(if width == 0 { 1 } else { 1600int / (width as int) }, 1, 16)
    } else {
        clamp(cell_size as int, 1, 64)
    }
}

/// The viewer's initial cell size; see [`viewer_cell_size_spec`].
pub fn viewer_cell_size(cell_size: u32, width: usize) -> (cs: usize)
    ensures
        cs == viewer_cell_size_spec(cell_size, width as nat),
        1 <= cs <= 64,
{
    if cell_size == 0 {
        let q: usize = if width == 0 { 1 } else { 1600 / width };
        if q < 1 { 1 } else if q > 16 { 16 } else { q }
    } else {
        let c = cell_size as usize;
        if c < 1 { 1 } else if c > 64 { 64 } else { c }
    }
}

/// One tile of a run as the viewer receives it.
pub struct ViewerTile {
    pub id: String,
    pub start: usize,
    pub end: usize,
    /// The tile's cells, packed and base64-encoded.
    pub data: String,
}

/// What the viewer needs to draw a run, besides the border settings.
pub struct ViewerTiles {
    /// Width in cells, at least 1.
    pub w: usize,
    /// Height in rows, at least 1.
    pub h: usize,
    /// Initial cell size in pixels.
    pub cs: usize,
    pub fill: String,
    pub align: String,
    /// The initial-condition label, against the padding fill.
    pub ic: String,
    pub tiles: Vec<ViewerTile>,
}

/// Tile `i` of a run as the viewer receives it: id "tile{i}".
pub open spec fn is_viewer_tile(
    t: ViewerTile,
    rows: Seq<u8>,
    width: nat,
    height: nat,
    rows_per_tile: nat,
    i: nat,
) -> bool {
    &&& t.id@ == "tile"@ + decimal(i)
    &&& t.start == tile_start(i, rows_per_tile)
    &&& t.end == tile_end(i, rows_per_tile, height)
    &&& t.data@ == tile_data(rows, width, height, rows_per_tile, i)
}

/// Split a run into the tiles the viewer draws, with its labels: the
/// viewer's counterpart of the exported page.
pub fn compute_tile_data(
    result: &SimulationResult,
    cell_size: u32,
    padding_fill: PaddingFill,
    padding_align: PaddingAlign,
) -> (t: ViewerTiles)
    requires
        result.width == 0 || result.rows@.len() == 0 || result.rows@.len() >= result.width,
    ensures
        ({
            let w = result.width as nat;
            let h = full_rows(result.rows@.len(), w);
            let cs = viewer_cell_size_spec(cell_size, w);
            let rpt = tile_rows_spec(w, cs as nat) as nat;
            &&& t.w == (if w == 0 { 1 } else { w })
            &&& t.h == (if h == 0 { 1 } else { h })
            &&& t.cs == cs
            &&& t.fill@ == fill_label_text(padding_fill)
            &&& t.align@ == align_label_text(padding_align)
            &&& t.ic@ == first_row_ic_text(result.rows@, w, padding_fill)
            &&& t.tiles@.len() == tile_count_spec(h, rpt)
            &&& forall|i: int|
                0 <= i < t.tiles@.len() ==> is_viewer_tile(#[trigger] t.tiles@[i], result.rows@, w, h, rpt, i as nat)
        }),
{
    let rows = result.rows.as_slice();
    let width = result.width;
    let height: usize = if width == 0 { 0 } else { rows.len() / width };
    let cs = viewer_cell_size(cell_size, width);
    let rpt = tile_rows(width, cs);
    let nt = tile_count(height, rpt);
    let ic = first_row_ic(rows, width, padding_fill);
    let mut tiles: Vec<ViewerTile> = Vec::new();
    let mut i: usize = 0;
    while i < nt
        invariant
            i <= nt,
            rpt >= 1,
            nt > 0 ==> (nt - 1) * rpt < height,
            tiles@.len() == i,
            forall|j: int|
                0 <= j < i ==> is_viewer_tile(#[trigger] tiles@[j], rows@, width as nat, height as nat, rpt as nat, j as nat),
        decreases nt - i,
    {
        proof {
            assert(i * rpt <= (nt - 1) * rpt) by (nonlinear_arith)
                requires
                    i <= nt - 1,
            ;
        }
        let (start, end, data) = tile_payload(rows, width, height, rpt, i);
        let mut id = String::from_str("tile");
        push_usize(&mut id, i);
        tiles.push(ViewerTile { id, start, end, data });
        i = i + 1;
    }
    ViewerTiles {
        w: if width < 1 { 1 } else { width },
        h: if height < 1 { 1 } else { height },
        cs,
        fill: String::from_str(fill_label(padding_fill)),
        align: String::from_str(align_label(padding_align)),
        ic,
        tiles,
    }
}


/// The widest run the server accepts.
pub const MAX_WIDTH: usize = 10_000;

/// The most generations the server runs.
pub const MAX_GENERATIONS: usize = 100_000;

/// The most cells one run may hold.
pub const MAX_RUN_CELLS: usize = 500_000_000;

/// The most runs a session keeps.
pub const MAX_SESSIONS: usize = 1_000;

/// The most cells all session runs together may hold.
pub const MAX_TOTAL_SESSION_CELLS: usize = 2_000_000_000;

/// Why a run request of this size is refused, if it is: a width outside
/// `1..=MAX_WIDTH`, more than `MAX_GENERATIONS` generations, or more than
/// `MAX_RUN_CELLS` cells in all.
pub open spec fn run_size_problem(width: nat, generations: nat) -> Option<Seq<char>> {
    if width == 0 || width > MAX_WIDTH {
        Some("width must be between 1 and 10000"@)
    } else if generations > MAX_GENERATIONS {
        Some("generations must be at most 100000"@)
    } else if width * (generations + 1) > MAX_RUN_CELLS {
        Some("simulation too large: width × (generations + 1) exceeds 500 M cells"@)
    } else {
        None
    }
}

/// Check the size of a run request; see [`run_size_problem`].
pub fn check_run_size(width: usize, generations: usize) -> (r: Option<String>)
    ensures
        r matches Some(m) ==> run_size_problem(width as nat, generations as nat) == Some(m@),
        r is None ==> run_size_problem(width as nat, generations as nat) is None,
{
    if width == 0 || width > MAX_WIDTH {
        return Some(String::from_str("width must be between 1 and 10000"));
    }
    if generations > MAX_GENERATIONS {
        return Some(String::from_str("generations must be at most 100000"));
    }
    proof {
        assert(width * (generations + 1) <= 10_000 * 100_001) by (nonlinear_arith)
            requires
                width <= 10_000,
                generations <= 100_000,
        ;
    }
    if width * (generations + 1) > MAX_RUN_CELLS {
        return Some(
            String::from_str("simulation too large: width × (generations + 1) exceeds 500 M cells"),
        );
    }
    None
}

/// Whether a new run may join the session.
#[derive(Clone, Copy, Debug, PartialEq, Eq, Structural)]
pub enum Admission {
    Admit,
    /// `MAX_SESSIONS` runs are already kept.
    SessionLimit,
    /// The new run would take the kept cells past `MAX_TOTAL_SESSION_CELLS`.
    MemoryLimit,
}

/// The sum of `sizes`.
pub open spec fn total(sizes: Seq<usize>) -> int
    decreases sizes.len(),
{
    if sizes.len() == 0 {
        0
    } else {
        total(sizes.drop_last()) + sizes.last()
    }
}

/// May a run of `new_cells` cells join a session that keeps runs of the
/// given sizes?
pub open spec fn admission_of(kept: Seq<usize>, new_cells: nat) -> Admission {
    if kept.len() >= MAX_SESSIONS {
        Admission::SessionLimit
    } else if total(kept) + new_cells > MAX_TOTAL_SESSION_CELLS {
        Admission::MemoryLimit
    } else {
        Admission::Admit
    }
}

proof fn lemma_total_grows(s: Seq<usize>, i: int)
    requires
        0 <= i <= s.len(),
    ensures
        total(s.take(i)) <= total(s),
    decreases s.len() - i,
{
    if i < s.len() {
        lemma_total_grows(s, i + 1);
        assert(s.take(i + 1).drop_last() =~= s.take(i));
    } else {
        assert(s.take(i) =~= s);
    }
}

/// Decide whether a new run may join the session; see [`admission_of`].
pub fn admit_session_run(kept: &[usize], new_cells: usize) -> (a: Admission)
    ensures
        a == admission_of(kept@, new_cells as nat),
{
    if kept.len() >= MAX_SESSIONS {
        return Admission::SessionLimit;
    }
    let mut sum: usize = 0;
    let mut i: usize = 0;
    while i < kept.len()
        invariant
            i <= kept@.len(),
            kept@.len() < MAX_SESSIONS,
            sum == total(kept@.take(i as int)),
            sum <= MAX_TOTAL_SESSION_CELLS,
        decreases kept@.len() - i,
    {
        proof {
            assert(kept@.take(i + 1).drop_last() =~= kept@.take(i as int));
        }
        if kept[i] > MAX_TOTAL_SESSION_CELLS - sum {
            proof {
                lemma_total_grows(kept@, i + 1);
                assert(kept@.take(i + 1).last() == kept@[i as int]);
                assert(total(kept@.take(i + 1)) == sum + kept@[i as int]);
            }
            return Admission::MemoryLimit;
        }
        sum = sum + kept[i];
        i = i + 1;
    }
    proof {
        assert(kept@.take(i as int) =~= kept@);
    }
    if new_cells > MAX_TOTAL_SESSION_CELLS - sum {
        Admission::MemoryLimit
    } else {
        Admission::Admit
    }
}

impl Admission {
    /// The text of the refusal (empty for `Admit`).
    pub fn message(&self) -> (m: &'static str)
        ensures
            *self == Admission::SessionLimit ==> m@ == "session limit reached"@,
            *self == Admission::MemoryLimit ==> m@
                == "session memory limit reached; remove some session runs and retry"@,
            *self == Admission::Admit ==> m@ == ""@,
    {
        match self {
            Admission::Admit => "",
            Admission::SessionLimit => "session limit reached",
            Admission::MemoryLimit => "session memory limit reached; remove some session runs and retry",
        }
    }
}

/// How the server answers `GET /runs/{name}`.
#[derive(Clone, Copy, Debug, PartialEq, Eq, Structural)]
pub enum RunFileRoute {
    /// The gallery script, from the copy built into the server.
    GalleryScript,
    /// The manifest of saved runs.
    Manifest,
    /// A saved run page, read from the runs directory.
    RunPage,
    /// Anything else: refused.
    BadRequest,
}

/// Does `s` end with `suffix`?
pub open spec fn ends_with(s: Seq<char>, suffix: Seq<char>) -> bool {
    suffix.len() <= s.len() && s.skip(s.len() - suffix.len()) == suffix
}

/// The route of a requested run file name.
pub open spec fn run_file_route_of(name: Seq<char>) -> RunFileRoute {
    if name == "gallery.js"@ {
        RunFileRoute::GalleryScript
    } else if name == "manifest.tsv"@ {
        RunFileRoute::Manifest
    } else if !safe_filename(name) || !ends_with(name, ".html"@) {
        RunFileRoute::BadRequest
    } else {
        RunFileRoute::RunPage
    }
}

/// Route a request for a file under `/runs/`; see [`run_file_route_of`].
pub fn run_file_route(name: &str) -> (r: RunFileRoute)
    ensures
        r == run_file_route_of(name@),
{
    if crate::text::str_eq(name, "gallery.js") {
        return RunFileRoute::GalleryScript;
    }
    if crate::text::str_eq(name, "manifest.tsv") {
        return RunFileRoute::Manifest;
    }
    if !is_safe_filename(name) {
        return RunFileRoute::BadRequest;
    }
    let v = chars_of(name);
    let suffix = chars_of(".html");
    if v.len() < suffix.len() {
        return RunFileRoute::BadRequest;
    }
    let at = v.len() - suffix.len();
    if !chars_occur_at(v.as_slice(), suffix.as_slice(), at) {
        proof {
            assert(v@.subrange(at as int, at + suffix@.len()) =~= v@.skip(at as int));
        }
        return RunFileRoute::BadRequest;
    }
    proof {
        assert(v@.subrange(at as int, at + suffix@.len()) =~= v@.skip(at as int));
    }
    RunFileRoute::RunPage
}


/// Every character of `s` is a decimal digit.
pub open spec fn all_digits(s: Seq<char>) -> bool {
    forall|i: int| 0 <= i < s.len() ==> '0' <= #[trigger] s[i] <= '9'
}

/// The decimal digits `s` read as a number.
pub open spec fn digits_number(s: Seq<char>) -> nat
    decreases s.len(),
{
    if s.len() == 0 {
        0
    } else {
        10 * digits_number(s.drop_last()) + ((s.last() as int) - 48) as nat
    }
}

/// `u64::from_str`: an optional '+', then at least one decimal digit, and
/// a value that fits in 64 bits.
pub open spec fn u64_from_text(s: Seq<char>) -> Option<u64> {
    let t = if s.len() > 0 && s[0] == '+' { s.skip(1) } else { s };
    if t.len() > 0 && all_digits(t) && digits_number(t) <= u64::MAX {
        Some(digits_number(t) as u64)
    } else {
        None
    }
}

/// Read a run id from a request path; see [`u64_from_text`].
pub fn parse_u64(s: &str) -> (r: Option<u64>)
    ensures
        r == u64_from_text(s@),
{
    let v = chars_of(s);
    let start: usize = if v.len() > 0 && v[0] == '+' { 1 } else { 0 };
    let ghost t = if v@.len() > 0 && v@[0] == '+' { v@.skip(1) } else { v@ };
    proof {
        assert(t =~= v@.skip(start as int));
    }
    if start >= v.len() {
        return None;
    }
    let mut value: u64 = 0;
    let mut i: usize = start;
    while i < v.len()
        invariant
            start <= i <= v@.len(),
            v@ == s@,
            t == (if v@.len() > 0 && v@[0] == '+' { v@.skip(1) } else { v@ }),
            t == v@.skip(start as int),
            all_digits(v@.subrange(start as int, i as int)),
            value == digits_number(v@.subrange(start as int, i as int)),
        decreases v@.len() - i,
    {
        let c = v[i];
        proof {
            assert(v@.subrange(start as int, i + 1).drop_last() =~= v@.subrange(start as int, i as int));
        }
        if !(c >= '0' && c <= '9') {
            proof {
                assert(t[i - start] == c);
                assert(!all_digits(t));
            }
            return None;
        }
        let d = (c as u32 - 48) as u64;
        let next = match value.checked_mul(10) {
            Some(m) => match m.checked_add(d) {
                Some(n) => n,
                None => {
                    proof {
                        if all_digits(t) {
                            lemma_digits_number_prefix(t, (i + 1 - start) as int);
                            assert(t.take(i + 1 - start) =~= v@.subrange(start as int, i + 1));
                        }
                    }
                    return None;
                },
            },
            None => {
                proof {
                    if all_digits(t) {
                        lemma_digits_number_prefix(t, (i + 1 - start) as int);
                        assert(t.take(i + 1 - start) =~= v@.subrange(start as int, i + 1));
                    }
                }
                return None;
            },
        };
        value = next;
        i = i + 1;
    }
    proof {
        assert(v@.subrange(start as int, i as int) =~= t);
    }
    Some(value)
}

/// A number read from the first digits is no larger than the number read
/// from all of them.
proof fn lemma_digits_number_prefix(s: Seq<char>, k: int)
    requires
        0 <= k <= s.len(),
        all_digits(s),
    ensures
        digits_number(s.take(k)) <= digits_number(s),
    decreases s.len() - k,
{
    if k < s.len() {
        lemma_digits_number_prefix(s, k + 1);
        assert(s.take(k + 1).drop_last() =~= s.take(k));
        assert('0' <= s[k] <= '9');
    } else {
        assert(s.take(k) =~= s);
    }
}


/// A name that passes [`safe_filename`] stays inside the runs directory: it
/// holds no path separator or drive colon and is neither "." nor "..".
pub proof fn lemma_safe_filename_stays_inside(s: Seq<char>)
    requires
        safe_filename(s),
    ensures
        forall|i: int| 0 <= i < s.len() ==> s[i] != '/' && s[i] != '\\' && s[i] != ':',
        s != "."@,
        s != ".."@,
{
    reveal_strlit(".");
    reveal_strlit("..");
    assert forall|i: int| 0 <= i < s.len() implies s[i] != '/' && s[i] != '\\' && s[i] != ':' by {
        assert(filename_char(s[i]));
    }
    let k = choose|k: int| 0 <= k < s.len() && #[trigger] is_ascii_alnum(s[k]);
    assert(s[k] != '.');
}

/// The boundary names the JSON output writes parse back to the same mode.
pub proof fn lemma_boundary_name_parses(b: BoundaryMode)
    ensures
        boundary_from(boundary_name(b)) == Some(b),
{
    reveal_strlit("ZeroPadded");
    reveal_strlit("Wrap");
    assert("Wrap"@.len() != "ZeroPadded"@.len());
}

/// Admitting only what [`admission_of`] admits keeps a session within its
/// limits: at most `MAX_SESSIONS` runs and `MAX_TOTAL_SESSION_CELLS` cells.
pub proof fn lemma_admission_keeps_limits(kept: Seq<usize>, new_cells: usize)
    requires
        admission_of(kept, new_cells as nat) == Admission::Admit,
    ensures
        kept.push(new_cells).len() <= MAX_SESSIONS,
        total(kept.push(new_cells)) <= MAX_TOTAL_SESSION_CELLS,
{
    assert(kept.push(new_cells).drop_last() =~= kept);
}

/// Escaped text can sit inside a `<script>` element: it holds no '<', '>'
/// or '/' (so it cannot close the element) and no control character.
pub proof fn lemma_json_escaped_is_inert(s: Seq<char>)
    ensures
        forall|i: int|
            0 <= i < json_escaped(s).len() ==> {
                let c = #[trigger] json_escaped(s)[i];
                c != '<' && c != '>' && c != '/' && (c as u32) >= 0x20
            },
    decreases s.len(),
{
    if s.len() > 0 {
        lemma_json_escaped_is_inert(s.drop_last());
        let head = json_escaped(s.drop_last());
        let tail = json_escape_char(s.last());
        reveal_strlit("\\\"");
        reveal_strlit("\\\\");
        reveal_strlit("\\n");
        reveal_strlit("\\r");
        reveal_strlit("\\t");
        reveal_strlit("\\u003c");
        reveal_strlit("\\u003e");
        reveal_strlit("\\u002f");
        reveal_strlit("\\u00");
        assert forall|i: int| 0 <= i < json_escaped(s).len() implies {
            let c = #[trigger] json_escaped(s)[i];
            c != '<' && c != '>' && c != '/' && (c as u32) >= 0x20
        } by {
            if i < head.len() {
                assert(json_escaped(s)[i] == head[i]);
            } else {
                assert(json_escaped(s)[i] == tail[i - head.len()]);
            }
        }
    }
}


/// Decimal notation is all digits and reads back as the number it writes.
proof fn lemma_decimal_digits(n: nat)
    ensures
        decimal(n).len() > 0,
        all_digits(decimal(n)),
        digits_number(decimal(n)) == n,
    decreases n,
{
    let last = crate::decimal::digit_char(n % 10);
    assert(last as int == 48 + n % 10);
    if n < 10 {
        assert(decimal(n) == seq![last]);
        assert(decimal(n).drop_last() =~= Seq::<char>::empty());
        assert(decimal(n).last() == last);
        assert(digits_number(decimal(n)) == 10 * digits_number(Seq::<char>::empty()) + ((last as int) - 48) as nat);
    } else {
        lemma_decimal_digits(n / 10);
        let d = decimal(n / 10);
        let t = decimal(n);
        assert(t == d.push(crate::decimal::digit_char(n % 10)));
        assert(t.drop_last() =~= d);
        assert(t.last() == last);
        assert(digits_number(t) == 10 * digits_number(d) + ((last as int) - 48) as nat);
        assert(10 * (n / 10) + n % 10 == n);
        assert forall|i: int| 0 <= i < t.len() implies '0' <= #[trigger] t[i] <= '9' by {
            if i < d.len() {
                assert(t[i] == d[i]);
            }
        }
    }
}

/// Run ids round-trip: the decimal text of an id parses back to the id.
pub proof fn lemma_u64_text_parses(n: u64)
    ensures
        u64_from_text(decimal(n as nat)) == Some(n),
{
    lemma_decimal_digits(n as nat);
    let t = decimal(n as nat);
    assert('0' <= t[0] <= '9');
}


/// The value of a hexadecimal digit (either case); none for other characters.
pub open spec fn hex_value(c: char) -> Option<nat> {
    if '0' <= c <= '9' {
        Some(((c as int) - 48) as nat)
    } else if 'a' <= c <= 'f' {
        Some(((c as int) - 87) as nat)
    } else if 'A' <= c <= 'F' {
        Some(((c as int) - 55) as nat)
    } else {
        None
    }
}

/// The code point a `\uXXXX` escape names, from its four hex digits; none
/// when one is not a hex digit or the code is a surrogate.
pub open spec fn unicode_escape(t: Seq<char>) -> Option<char> {
    match (hex_value(t[0]), hex_value(t[1]), hex_value(t[2]), hex_value(t[3])) {
        (Some(a), Some(b), Some(c), Some(d)) => {
            let v = a * 4096 + b * 256 + c * 16 + d;
            if 0xD800 <= v <= 0xDFFF {
                None
            } else {
                Some(v as char)
            }
        },
        _ => None,
    }
}

/// The characters the body of a JSON string literal (the text between its
/// quotes) stands for, as JSON (RFC 8259) reads it: escapes decoded; none
/// when the body holds an unescaped quote or control character or an
/// escape JSON does not know.
pub open spec fn json_string_body(t: Seq<char>) -> Option<Seq<char>>
    decreases t.len(),
{
    if t.len() == 0 {
        Some(Seq::empty())
    } else if t[0] == '\\' {
        if t.len() < 2 {
            None
        } else {
            let e = t[1];
            let simple: Option<char> = if e == '"' {
                Some('"')
            } else if e == '\\' {
                Some('\\')
            } else if e == '/' {
                Some('/')
            } else if e == 'b' {
                Some('\u{08}')
            } else if e == 'f' {
                Some('\u{0C}')
            } else if e == 'n' {
                Some('\n')
            } else if e == 'r' {
                Some('\r')
            } else if e == 't' {
                Some('\t')
            } else {
                None
            };
            match simple {
                Some(c) => match json_string_body(t.skip(2)) {
                    Some(rest) => Some(seq![c] + rest),
                    None => None,
                },
                None => if e == 'u' && t.len() >= 6 {
                    match (unicode_escape(t.subrange(2, 6)), json_string_body(t.skip(6))) {
                        (Some(c), Some(rest)) => Some(seq![c] + rest),
                        _ => None,
                    }
                } else {
                    None
                },
            }
        }
    } else if t[0] == '"' || (t[0] as u32) < 0x20 {
        None
    } else {
        match json_string_body(t.skip(1)) {
            Some(rest) => Some(seq![t[0]] + rest),
            None => None,
        }
    }
}

proof fn lemma_json_escaped_front(c: char, s: Seq<char>)
    ensures
        json_escaped(seq![c] + s) == json_escape_char(c) + json_escaped(s),
    decreases s.len(),
{
    if s.len() == 0 {
        assert(seq![c] + s =~= seq![c]);
        assert((seq![c]).drop_last() =~= Seq::<char>::empty());
        assert(json_escaped(seq![c]) == json_escaped(Seq::<char>::empty()) + json_escape_char(c));
        assert(Seq::<char>::empty() + json_escape_char(c) =~= json_escape_char(c));
        assert(json_escaped(s) == Seq::<char>::empty());
        assert(json_escape_char(c) + Seq::<char>::empty() =~= json_escape_char(c));
    } else {
        lemma_json_escaped_front(c, s.drop_last());
        assert((seq![c] + s).drop_last() =~= seq![c] + s.drop_last());
        assert((seq![c] + s).last() == s.last());
        assert(json_escape_char(c) + json_escaped(s.drop_last()) + json_escape_char(s.last())
            =~= json_escape_char(c) + (json_escaped(s.drop_last()) + json_escape_char(s.last())));
    }
}

proof fn lemma_hex_round_trip(d: nat)
    requires
        d < 16,
    ensures
        hex_value(hex_char(d)) == Some(d),
{
    if d < 10 {
        assert((hex_char(d) as int) == 48 + d);
    } else {
        assert((hex_char(d) as int) == 87 + d);
    }
}

proof fn lemma_json_escape_char_decodes(c: char, rest: Seq<char>)
    ensures
        json_string_body(json_escape_char(c) + rest) == match json_string_body(rest) {
            Some(r) => Some(seq![c] + r),
            None => None::<Seq<char>>,
        },
{
    let t = json_escape_char(c) + rest;
    reveal_strlit("\\\"");
    reveal_strlit("\\\\");
    reveal_strlit("\\n");
    reveal_strlit("\\r");
    reveal_strlit("\\t");
    reveal_strlit("\\u003c");
    reveal_strlit("\\u003e");
    reveal_strlit("\\u002f");
    reveal_strlit("\\u00");
    if c == '"' || c == '\\' || c == '\n' || c == '\r' || c == '\t' {
        assert(t.skip(2) =~= rest);
    } else if c == '<' || c == '>' || c == '/' {
        assert(t.skip(6) =~= rest);
        let u = t.subrange(2, 6);
        assert(u[0] == '0' && u[1] == '0');
        if c == '<' {
            assert(u[2] == '3' && u[3] == 'c');
        } else if c == '>' {
            assert(u[2] == '3' && u[3] == 'e');
        } else {
            assert(u[2] == '2' && u[3] == 'f');
        }
        assert(unicode_escape(u) == Some(c));
    } else if (c as u32) < 0x20 {
        let v = c as u32;
        let hi = (v / 16) as nat;
        let lo = (v % 16) as nat;
        assert(t.skip(6) =~= rest);
        let u = t.subrange(2, 6);
        assert(u[0] == '0' && u[1] == '0');
        assert(u[2] == hex_char(hi) && u[3] == hex_char(lo));
        lemma_hex_round_trip(hi);
        lemma_hex_round_trip(lo);
        assert(hex_value('0') == Some(0nat));
        assert(hi * 16 + lo == v);
        assert((v as int) as char == c);
        assert(unicode_escape(u) == Some(c));
    } else {
        assert(t.skip(1) =~= rest);
    }
}

/// Escaped text reads back: the body of a JSON string literal written by
/// `json_str_escape` decodes, as JSON reads it, to exactly the input.
pub proof fn lemma_json_escaped_decodes(s: Seq<char>)
    ensures
        json_string_body(json_escaped(s)) == Some(s),
    decreases s.len(),
{
    if s.len() == 0 {
    } else {
        let c = s[0];
        let rest = s.drop_first();
        assert(s =~= seq![c] + rest);
        lemma_json_escaped_front(c, rest);
        lemma_json_escaped_decodes(rest);
        lemma_json_escape_char_decodes(c, json_escaped(rest));
    }
}


/// Different numbers have different decimal notations.
pub proof fn lemma_decimal_injective(m: nat, n: nat)
    ensures
        decimal(m) == decimal(n) ==> m == n,
{
    lemma_decimal_digits(m);
    lemma_decimal_digits(n);
}


/// Every viewer tile carries the packed cells of its own rows: tile `i` is
/// named "tile{i}", covers rows `i * rows_per_tile` up to the next tile's
/// first row (or the last row), and its data is the standard base64 of
/// exactly those rows packed.
pub proof fn lemma_viewer_tile_holds_its_rows(
    t: ViewerTile,
    rows: Seq<u8>,
    width: nat,
    height: nat,
    rows_per_tile: nat,
    i: nat,
)
    requires
        is_viewer_tile(t, rows, width, height, rows_per_tile, i),
    ensures
        t.id@ == "tile"@ + decimal(i),
        t.start == i * rows_per_tile,
        t.end == if (i + 1) * rows_per_tile < height { (i + 1) * rows_per_tile } else { height },
        t.data@ == crate::export::base64_text(
            crate::bits::packed_bytes(rows, width, t.start as nat, t.end as nat),
        ),
{
}

} // verus!
