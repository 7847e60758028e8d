//! The registry file format: a small TOML-style key/value document with an
//! optional top-level `default` string and one `[profiles.<alias>]` table per
//! profile. Writing is deterministic; reading accepts the written form plus
//! the usual latitude (blank lines, comments, spaces, keys in any order).
//! Reading back what was written returns the registry unchanged, proved in
//! [`lemma_codec_round_trip`].

use vstd::prelude::*;

use crate::config::Config;
use crate::config::ConfigView;
use crate::config::Profile;
use crate::config::ProfileView;

verus! {

// ---------------------------------------------------------------------------
// Character classes and digits.
// ---------------------------------------------------------------------------

/// The digit character for a value below sixteen.
pub open spec fn digit_char(n: int) -> char {
    if n == 0 {
        '0'
    } else if n == 1 {
        '1'
    } else if n == 2 {
        '2'
    } else if n == 3 {
        '3'
    } else if n == 4 {
        '4'
    } else if n == 5 {
        '5'
    } else if n == 6 {
        '6'
    } else if n == 7 {
        '7'
    } else if n == 8 {
        '8'
    } else if n == 9 {
        '9'
    } else if n == 10 {
        'a'
    } else if n == 11 {
        'b'
    } else if n == 12 {
        'c'
    } else if n == 13 {
        'd'
    } else if n == 14 {
        'e'
    } else {
        'f'
    }
}

/// Numeric value of a hexadecimal digit character, either case.
pub open spec fn hex_val(c: char) -> Option<int> {
    let u = c as u32;
    if 0x30 <= u && u <= 0x39 {
        Some(u as int - 0x30)
    } else if 0x61 <= u && u <= 0x66 {
        Some(u as int - 0x61 + 10)
    } else if 0x41 <= u && u <= 0x46 {
        Some(u as int - 0x41 + 10)
    } else {
        None
    }
}

/// How one character is written inside a quoted string: itself when
/// harmless, a short escape for the common control characters, and a
/// `\u00XX` escape for the rest.
pub open spec fn esc_char(c: char) -> Seq<char> {
    if c == '"' {
        seq!['\\', '"']
    } else if c == '\\' {
        seq!['\\', '\\']
    } else if c == '\u{8}' {
        seq!['\\', 'b']
    } else if c == '\t' {
        seq!['\\', 't']
    } else if c == '\n' {
        seq!['\\', 'n']
    } else if c == '\u{c}' {
        seq!['\\', 'f']
    } else if c == '\r' {
        seq!['\\', 'r']
    } else if (c as u32) < 0x20 || (c as u32) == 0x7f {
        seq!['\\', 'u', '0', '0', digit_char((c as u32) as int / 16), digit_char(
            (c as u32) as int % 16,
        )]
    } else {
        seq![c]
    }
}

/// A whole string escaped character by character.
pub open spec fn esc_str(s: Seq<char>) -> Seq<char>
    decreases s.len(),
{
    if s.len() == 0 {
        Seq::empty()
    } else {
        esc_char(s[0]) + esc_str(s.skip(1))
    }
}

/// A string as written: escaped and surrounded by quotes.
pub open spec fn quoted(s: Seq<char>) -> Seq<char> {
    seq!['"'] + esc_str(s) + seq!['"']
}

/// A character allowed in an unquoted key: ASCII letters, digits, `-`, `_`.
pub open spec fn is_bare_char(c: char) -> bool {
    let u = c as u32;
    (0x41 <= u && u <= 0x5a) || (0x61 <= u && u <= 0x7a) || (0x30 <= u && u <= 0x39) || u == 0x2d
        || u == 0x5f
}

/// A key that may be written without quotes.
pub open spec fn bare_key(s: Seq<char>) -> bool {
    s.len() > 0 && forall|i: int| 0 <= i < s.len() ==> is_bare_char(s[i])
}

/// A key as written in a table header: bare when possible, quoted otherwise.
pub open spec fn enc_key(s: Seq<char>) -> Seq<char> {
    if bare_key(s) {
        s
    } else {
        quoted(s)
    }
}

/// The canonical decimal digits of a non-negative number.
pub open spec fn dec_digits(n: int) -> Seq<char>
    decreases n,
{
    if n < 10 {
        seq![digit_char(n)]
    } else {
        dec_digits(n / 10) + seq![digit_char(n % 10)]
    }
}

// ---------------------------------------------------------------------------
// The written document.
// ---------------------------------------------------------------------------

/// One profile section as written.
pub open spec fn enc_profile_table(alias: Seq<char>, p: ProfileView) -> Seq<char> {
    "[profiles."@ + enc_key(alias) + "]\n"@ + "host = "@ + quoted(p.host) + "\n"@ + "user = "@
        + quoted(p.user) + "\n"@ + "port = "@ + dec_digits(p.port as int) + "\n"@
}

/// All profile sections, in storage order, separated by blank lines.
pub open spec fn enc_tables(entries: Seq<(Seq<char>, ProfileView)>) -> Seq<char>
    decreases entries.len(),
{
    if entries.len() == 0 {
        Seq::empty()
    } else if entries.len() == 1 {
        enc_profile_table(entries[0].0, entries[0].1)
    } else {
        enc_profile_table(entries[0].0, entries[0].1) + "\n"@ + enc_tables(entries.skip(1))
    }
}

/// The whole registry as written: the default line first when a default is
/// chosen, then the profile sections.
pub open spec fn enc_config(c: ConfigView) -> Seq<char> {
    let head = match c.default {
        Some(d) => "default = "@ + quoted(d) + "\n"@,
        None => Seq::empty(),
    };
    let sep = if c.default is Some && c.entries.len() > 0 {
        "\n"@
    } else {
        Seq::empty()
    };
    head + sep + enc_tables(c.entries)
}

// ---------------------------------------------------------------------------
// Lemmas about the written form.
// ---------------------------------------------------------------------------

/// Escaping distributes over concatenation.
proof fn lemma_esc_str_append(a: Seq<char>, b: Seq<char>)
    ensures
        esc_str(a + b) == esc_str(a) + esc_str(b),
    decreases a.len(),
{
    if a.len() == 0 {
        assert(a + b =~= b);
        assert(esc_str(a) + esc_str(b) =~= esc_str(b));
    } else {
        lemma_esc_str_append(a.skip(1), b);
        assert((a + b).skip(1) =~= a.skip(1) + b);
        assert(esc_str(a + b) =~= esc_str(a) + esc_str(b));
    }
}

/// Escaping one more character appends its escape.
proof fn lemma_esc_str_snoc(s: Seq<char>, i: int)
    requires
        0 <= i < s.len(),
    ensures
        esc_str(s.take(i + 1)) == esc_str(s.take(i)) + esc_char(s[i]),
{
    lemma_esc_str_append(s.take(i), seq![s[i]]);
    assert(s.take(i + 1) =~= s.take(i) + seq![s[i]]);
    assert(seq![s[i]].skip(1) =~= Seq::<char>::empty());
    assert(esc_str(seq![s[i]]) == esc_char(s[i]) + esc_str(seq![s[i]].skip(1)));
    assert(esc_str(seq![s[i]]) =~= esc_char(s[i]));
    assert(esc_str(s.take(i)) + esc_char(s[i]) =~= esc_str(s.take(i)) + esc_str(seq![s[i]]));
}

/// The section list as written, seen from the back: everything before the
/// last section, a blank line, the last section.
proof fn lemma_enc_tables_back(entries: Seq<(Seq<char>, ProfileView)>)
    requires
        entries.len() >= 2,
    ensures
        enc_tables(entries) == enc_tables(entries.drop_last()) + "\n"@ + enc_tables(
            seq![entries.last()],
        ),
    decreases entries.len(),
{
    let head = enc_profile_table(entries[0].0, entries[0].1);
    if entries.len() == 2 {
        assert(entries.skip(1) =~= seq![entries.last()]);
        assert(entries.drop_last() =~= seq![entries[0]]);
        assert(enc_tables(entries.drop_last()) == head);
    } else {
        lemma_enc_tables_back(entries.skip(1));
        assert(entries.skip(1).drop_last() =~= entries.drop_last().skip(1));
        assert(entries.skip(1).last() == entries.last());
        assert(entries.drop_last().len() >= 2);
        assert(entries.drop_last()[0] == entries[0]);
        assert(enc_tables(entries.drop_last()) == head + "\n"@ + enc_tables(
            entries.drop_last().skip(1),
        ));
        assert(enc_tables(entries) == head + "\n"@ + enc_tables(entries.skip(1)));
        assert(head + "\n"@ + (enc_tables(entries.skip(1).drop_last()) + "\n"@ + enc_tables(
            seq![entries.last()],
        )) =~= (head + "\n"@ + enc_tables(entries.drop_last().skip(1))) + "\n"@ + enc_tables(
            seq![entries.last()],
        ));
    }
}

// ---------------------------------------------------------------------------
// Reading: the accepted grammar, line by line.
// ---------------------------------------------------------------------------

/// Space or tab.
pub open spec fn is_ws(c: char) -> bool {
    c == ' ' || c == '\t'
}

/// Length of the leading run of spaces and tabs.
pub open spec fn ws_len(s: Seq<char>) -> int
    decreases s.len(),
{
    if s.len() == 0 {
        0
    } else if is_ws(s[0]) {
        1 + ws_len(s.skip(1))
    } else {
        0
    }
}

/// Nothing but spaces and tabs.
pub open spec fn ws_only(s: Seq<char>) -> bool {
    forall|i: int| 0 <= i < s.len() ==> is_ws(s[i])
}

/// Index of the first line break, if any.
pub open spec fn find_nl(s: Seq<char>) -> Option<int>
    decreases s.len(),
{
    if s.len() == 0 {
        None
    } else if s[0] == '\n' {
        Some(0)
    } else {
        match find_nl(s.skip(1)) {
            Some(i) => Some(i + 1),
            None => None,
        }
    }
}

/// The first line of `s` and what follows it.
pub open spec fn line_split(s: Seq<char>) -> (Seq<char>, Seq<char>) {
    match find_nl(s) {
        Some(i) => (s.take(i), s.skip(i + 1)),
        None => (s, Seq::empty()),
    }
}

/// The reserved key words of the format.
pub open spec fn word_profiles() -> Seq<char> {
    seq!['p', 'r', 'o', 'f', 'i', 'l', 'e', 's']
}

pub open spec fn word_default() -> Seq<char> {
    seq!['d', 'e', 'f', 'a', 'u', 'l', 't']
}

pub open spec fn word_host() -> Seq<char> {
    seq!['h', 'o', 's', 't']
}

pub open spec fn word_user() -> Seq<char> {
    seq!['u', 's', 'e', 'r']
}

pub open spec fn word_port() -> Seq<char> {
    seq!['p', 'o', 'r', 't']
}

/// The character named by a short escape, if the letter names one.
pub open spec fn unescape(c: char) -> Option<char> {
    if c == '"' {
        Some('"')
    } else if c == '\\' {
        Some('\\')
    } else if c == 'b' {
        Some('\u{8}')
    } else if c == 't' {
        Some('\t')
    } else if c == 'n' {
        Some('\n')
    } else if c == 'f' {
        Some('\u{c}')
    } else if c == 'r' {
        Some('\r')
    } else {
        None
    }
}

/// Read a quoted string, starting after the opening quote: the content and
/// what follows the closing quote. `\uXXXX` escapes are accepted for ASCII
/// values; raw control characters are refused.
pub open spec fn parse_qstr(s: Seq<char>) -> Option<(Seq<char>, Seq<char>)>
    decreases s.len(),
{
    if s.len() == 0 {
        None
    } else if s[0] == '"' {
        Some((Seq::empty(), s.skip(1)))
    } else if s[0] == '\\' {
        if s.len() < 2 {
            None
        } else if s[1] == 'u' {
            if s.len() < 6 {
                None
            } else if hex_val(s[2]) is Some && hex_val(s[3]) is Some && hex_val(s[4]) is Some
                && hex_val(s[5]) is Some {
                let v = hex_val(s[2])->0 * 4096 + hex_val(s[3])->0 * 256 + hex_val(s[4])->0 * 16
                    + hex_val(s[5])->0;
                if v < 0x80 {
                    match parse_qstr(s.skip(6)) {
                        Some((t, r)) => Some((seq![(v as u8) as char] + t, r)),
                        None => None,
                    }
                } else {
                    None
                }
            } else {
                None
            }
        } else {
            match unescape(s[1]) {
                Some(c) => match parse_qstr(s.skip(2)) {
                    Some((t, r)) => Some((seq![c] + t, r)),
                    None => None,
                },
                None => None,
            }
        }
    } else if (s[0] as u32) < 0x20 || (s[0] as u32) == 0x7f {
        None
    } else {
        match parse_qstr(s.skip(1)) {
            Some((t, r)) => Some((seq![s[0]] + t, r)),
            None => None,
        }
    }
}

/// Length of the leading run of bare-key characters.
pub open spec fn bare_len(s: Seq<char>) -> int
    decreases s.len(),
{
    if s.len() == 0 {
        0
    } else if is_bare_char(s[0]) {
        1 + bare_len(s.skip(1))
    } else {
        0
    }
}

/// Length of the leading run of decimal digits.
pub open spec fn digit_len(s: Seq<char>) -> int
    decreases s.len(),
{
    if s.len() == 0 {
        0
    } else if 0x30 <= s[0] as u32 && s[0] as u32 <= 0x39 {
        1 + digit_len(s.skip(1))
    } else {
        0
    }
}

/// Value of a digit string.
pub open spec fn digits_val(s: Seq<char>) -> int
    decreases s.len(),
{
    if s.len() == 0 {
        0
    } else {
        digits_val(s.drop_last()) * 10 + (s.last() as u32 - 0x30)
    }
}

/// What one line says.
pub ghost enum LineItem {
    /// Nothing: empty, only whitespace, or a comment.
    Blank,
    /// `[profiles]`.
    HeaderRoot,
    /// `[profiles.<key>]`.
    HeaderTable(Seq<char>),
    /// `<key> = "<string>"`.
    KvStr(Seq<char>, Seq<char>),
    /// `<key> = <digits>`, with the digits' value.
    KvInt(Seq<char>, int),
}

/// Read a table header, starting after the `[`.
pub open spec fn parse_header(s: Seq<char>) -> Option<LineItem> {
    if s.len() >= 8 && s.take(8) == word_profiles() {
        let v = s.skip(8);
        if v.len() >= 1 && v[0] == ']' {
            if ws_only(v.skip(1)) {
                Some(LineItem::HeaderRoot)
            } else {
                None
            }
        } else if v.len() >= 1 && v[0] == '.' {
            let w = v.skip(1);
            if w.len() >= 1 && w[0] == '"' {
                match parse_qstr(w.skip(1)) {
                    Some((k, r)) => {
                        if r.len() >= 1 && r[0] == ']' && ws_only(r.skip(1)) {
                            Some(LineItem::HeaderTable(k))
                        } else {
                            None
                        }
                    },
                    None => None,
                }
            } else {
                let bl = bare_len(w);
                if bl > 0 && bl < w.len() && w[bl] == ']' && ws_only(w.skip(bl + 1)) {
                    Some(LineItem::HeaderTable(w.take(bl)))
                } else {
                    None
                }
            }
        } else {
            None
        }
    } else {
        None
    }
}

/// Read a `key = value` line, starting at the key.
pub open spec fn parse_kv(t: Seq<char>) -> Option<LineItem> {
    let kl = bare_len(t);
    if kl == 0 {
        None
    } else {
        let key = t.take(kl);
        let rest = t.skip(kl);
        let rest2 = rest.skip(ws_len(rest));
        if rest2.len() >= 1 && rest2[0] == '=' {
            let after = rest2.skip(1);
            let v = after.skip(ws_len(after));
            if v.len() >= 1 && v[0] == '"' {
                match parse_qstr(v.skip(1)) {
                    Some((sv, r)) => {
                        if ws_only(r) {
                            Some(LineItem::KvStr(key, sv))
                        } else {
                            None
                        }
                    },
                    None => None,
                }
            } else {
                let dl = digit_len(v);
                if dl > 0 && ws_only(v.skip(dl)) {
                    Some(LineItem::KvInt(key, digits_val(v.take(dl))))
                } else {
                    None
                }
            }
        } else {
            None
        }
    }
}

/// What one line says, or nothing when it is not well-formed.
pub open spec fn classify_line(l: Seq<char>) -> Option<LineItem> {
    let t = l.skip(ws_len(l));
    if t.len() == 0 || t[0] == '#' {
        Some(LineItem::Blank)
    } else if t[0] == '[' {
        parse_header(t.skip(1))
    } else {
        parse_kv(t)
    }
}

// ---------------------------------------------------------------------------
// Reading: the document state machine.
// ---------------------------------------------------------------------------

/// Where in the document the reader stands.
pub ghost enum Section {
    /// Before any header: top-level keys.
    Top,
    /// Inside a bare `[profiles]` header.
    Root,
    /// Inside `[profiles.<alias>]`: the alias and the fields seen so far.
    Table(Seq<char>, Option<Seq<char>>, Option<Seq<char>>, Option<int>),
}

/// The reader's accumulated state.
pub ghost struct PState {
    pub default: Option<Seq<char>>,
    pub entries: Seq<(Seq<char>, ProfileView)>,
    pub section: Section,
}

/// Whether `entries` already stores `a`.
pub open spec fn entries_has(entries: Seq<(Seq<char>, ProfileView)>, a: Seq<char>) -> bool {
    exists|i: int| 0 <= i < entries.len() && entries[i].0 == a
}

/// Close the open profile section, if any: both `host` and `user` must have
/// been given, `port` falls back to 22, and the alias must be new.
pub open spec fn close_section(st: PState) -> Option<PState> {
    match st.section {
        Section::Top => Some(st),
        Section::Root => Some(st),
        Section::Table(a, h, u, p) => {
            if h is Some && u is Some && !entries_has(st.entries, a) {
                let prof = ProfileView {
                    host: h->0,
                    user: u->0,
                    port: match p {
                        Some(v) => v as u16,
                        None => 22,
                    },
                };
                Some(
                    PState {
                        default: st.default,
                        entries: st.entries.push((a, prof)),
                        section: Section::Top,
                    },
                )
            } else {
                None
            }
        },
    }
}

/// Apply what one line says to the reader's state.
pub open spec fn apply_item(st: PState, item: LineItem) -> Option<PState> {
    match item {
        LineItem::Blank => Some(st),
        LineItem::HeaderRoot => match close_section(st) {
            Some(st1) => Some(PState { section: Section::Root, ..st1 }),
            None => None,
        },
        LineItem::HeaderTable(k) => match close_section(st) {
            Some(st1) => Some(
                PState { section: Section::Table(k, None, None, None), ..st1 },
            ),
            None => None,
        },
        LineItem::KvStr(key, v) => match st.section {
            Section::Top => {
                if key == word_default() && st.default is None {
                    Some(PState { default: Some(v), ..st })
                } else {
                    None
                }
            },
            Section::Root => None,
            Section::Table(a, h, u, p) => {
                if key == word_host() && h is None {
                    Some(PState { section: Section::Table(a, Some(v), u, p), ..st })
                } else if key == word_user() && u is None {
                    Some(PState { section: Section::Table(a, h, Some(v), p), ..st })
                } else {
                    None
                }
            },
        },
        LineItem::KvInt(key, v) => match st.section {
            Section::Table(a, h, u, p) => {
                if key == word_port() && p is None && 0 <= v <= 0xffff {
                    Some(PState { section: Section::Table(a, h, u, Some(v)), ..st })
                } else {
                    None
                }
            },
            _ => None,
        },
    }
}

/// The reader's starting state.
pub open spec fn init_pstate() -> PState {
    PState { default: None, entries: Seq::empty(), section: Section::Top }
}

/// Whether the first line break, if any, bounds the recursion.
proof fn lemma_find_nl(s: Seq<char>)
    ensures
        match find_nl(s) {
            Some(i) => {
                &&& 0 <= i < s.len()
                &&& s[i] == '\n'
                &&& forall|j: int| 0 <= j < i ==> s[j] != '\n'
            },
            None => forall|j: int| 0 <= j < s.len() ==> s[j] != '\n',
        },
    decreases s.len(),
{
    if s.len() > 0 && s[0] != '\n' {
        lemma_find_nl(s.skip(1));
        if find_nl(s.skip(1)) is Some {
            let i1 = find_nl(s.skip(1))->0;
            assert(s[i1 + 1] == s.skip(1)[i1]);
            assert forall|j: int| 0 <= j < i1 + 1 implies s[j] != '\n' by {
                if j > 0 {
                    assert(s.skip(1)[j - 1] == s[j]);
                }
            }
        } else {
            assert forall|j: int| 0 <= j < s.len() implies s[j] != '\n' by {
                if j > 0 {
                    assert(s.skip(1)[j - 1] == s[j]);
                }
            }
        }
    }
}

#[via_fn]
proof fn parse_doc_decreases(s: Seq<char>, st: PState) {
    lemma_find_nl(s);
}

/// Apply one line to the reader's state.
pub open spec fn step_line(st: PState, l: Seq<char>) -> Option<PState> {
    match classify_line(l) {
        Some(item) => apply_item(st, item),
        None => None,
    }
}

/// Read a whole document from `s`, starting in state `st`.
pub open spec fn parse_doc(s: Seq<char>, st: PState) -> Option<ConfigView>
    decreases s.len(),
    via parse_doc_decreases
{
    if s.len() == 0 {
        match close_section(st) {
            Some(st1) => Some(ConfigView { default: st1.default, entries: st1.entries }),
            None => None,
        }
    } else {
        let (l, rest) = line_split(s);
        match step_line(st, l) {
            Some(st1) => parse_doc(rest, st1),
            None => None,
        }
    }
}

/// What reading a document yields: the registry it describes, or nothing
/// when it is not well-formed.
pub open spec fn parse_config_spec(s: Seq<char>) -> Option<ConfigView> {
    parse_doc(s, init_pstate())
}

// ---------------------------------------------------------------------------
// Reading: executable scanners, mirrors of the spec functions.
// ---------------------------------------------------------------------------

/// Whitespace runs exactly as far as `ws_len` says.
proof fn lemma_ws_only(s: Seq<char>)
    ensures
        ws_only(s) <==> ws_len(s) == s.len(),
    decreases s.len(),
{
    if s.len() > 0 {
        lemma_ws_only(s.skip(1));
        if is_ws(s[0]) {
            assert forall|j: int| 0 <= j < s.skip(1).len() && is_ws(s.skip(1)[j]) implies is_ws(
                s[j + 1],
            ) by {}
            if ws_only(s) {
                assert forall|j: int| 0 <= j < s.skip(1).len() implies is_ws(s.skip(1)[j]) by {
                    assert(s.skip(1)[j] == s[j + 1]);
                }
            }
            if ws_only(s.skip(1)) {
                assert forall|j: int| 0 <= j < s.len() implies is_ws(s[j]) by {
                    if j > 0 {
                        assert(s[j] == s.skip(1)[j - 1]);
                    }
                }
            }
        }
    }
}

/// First position at or after `pos` that is not a space or tab.
fn scan_ws(l: &str, pos: usize) -> (r: usize)
    requires
        pos <= l@.len(),
    ensures
        pos <= r <= l@.len(),
        r - pos == ws_len(l@.skip(pos as int)),
    decreases l@.len() - pos,
{
    let len = l.unicode_len();
    if pos < len {
        let c = l.get_char(pos);
        proof {
            assert(l@.skip(pos as int)[0] == l@[pos as int]);
            assert(l@.skip(pos as int).skip(1) =~= l@.skip(pos + 1));
        }
        if c == ' ' || c == '\t' {
            return scan_ws(l, pos + 1);
        }
        pos
    } else {
        proof {
            assert(l@.skip(pos as int).len() == 0);
        }
        pos
    }
}

/// First position at or after `pos` that cannot stand in a bare key.
fn scan_bare(l: &str, pos: usize) -> (r: usize)
    requires
        pos <= l@.len(),
    ensures
        pos <= r <= l@.len(),
        r - pos == bare_len(l@.skip(pos as int)),
    decreases l@.len() - pos,
{
    let len = l.unicode_len();
    if pos < len {
        let c = l.get_char(pos);
        let u = c as u32;
        proof {
            assert(l@.skip(pos as int)[0] == l@[pos as int]);
            assert(l@.skip(pos as int).skip(1) =~= l@.skip(pos + 1));
        }
        if (0x41 <= u && u <= 0x5a) || (0x61 <= u && u <= 0x7a) || (0x30 <= u && u <= 0x39) || u
            == 0x2d || u == 0x5f {
            return scan_bare(l, pos + 1);
        }
        pos
    } else {
        proof {
            assert(l@.skip(pos as int).len() == 0);
        }
        pos
    }
}

/// First position at or after `pos` that is not a decimal digit.
fn scan_digits(l: &str, pos: usize) -> (r: usize)
    requires
        pos <= l@.len(),
    ensures
        pos <= r <= l@.len(),
        r - pos == digit_len(l@.skip(pos as int)),
    decreases l@.len() - pos,
{
    let len = l.unicode_len();
    if pos < len {
        let c = l.get_char(pos);
        let u = c as u32;
        proof {
            assert(l@.skip(pos as int)[0] == l@[pos as int]);
            assert(l@.skip(pos as int).skip(1) =~= l@.skip(pos + 1));
        }
        if 0x30 <= u && u <= 0x39 {
            return scan_digits(l, pos + 1);
        }
        pos
    } else {
        proof {
            assert(l@.skip(pos as int).len() == 0);
        }
        pos
    }
}

/// Position of the first line break at or after `pos`, or the end.
fn scan_nl(s: &str, pos: usize) -> (r: usize)
    requires
        pos <= s@.len(),
    ensures
        pos <= r <= s@.len(),
        match find_nl(s@.skip(pos as int)) {
            Some(k) => r == pos + k && r < s@.len(),
            None => r == s@.len(),
        },
    decreases s@.len() - pos,
{
    let len = s.unicode_len();
    if pos < len {
        let c = s.get_char(pos);
        proof {
            assert(s@.skip(pos as int)[0] == s@[pos as int]);
            assert(s@.skip(pos as int).skip(1) =~= s@.skip(pos + 1));
        }
        if c == '\n' {
            return pos;
        }
        scan_nl(s, pos + 1)
    } else {
        proof {
            assert(s@.skip(pos as int).len() == 0);
        }
        pos
    }
}

/// Numeric value of a hexadecimal digit character, either case.
fn hex_val_exec(c: char) -> (r: Option<u32>)
    ensures
        match r {
            Some(v) => hex_val(c) == Some(v as int),
            None => hex_val(c) is None,
        },
{
    let u = c as u32;
    if 0x30 <= u && u <= 0x39 {
        Some(u - 0x30)
    } else if 0x61 <= u && u <= 0x66 {
        Some(u - 0x61 + 10)
    } else if 0x41 <= u && u <= 0x46 {
        Some(u - 0x41 + 10)
    } else {
        None
    }
}

/// The character named by a short escape, if the letter names one.
fn unescape_exec(c: char) -> (r: Option<char>)
    ensures
        r == unescape(c),
{
    if c == '"' {
        Some('"')
    } else if c == '\\' {
        Some('\\')
    } else if c == 'b' {
        Some('\u{8}')
    } else if c == 't' {
        Some('\t')
    } else if c == 'n' {
        Some('\n')
    } else if c == 'f' {
        Some('\u{c}')
    } else if c == 'r' {
        Some('\r')
    } else {
        None
    }
}

/// Read a quoted string out of `l`, starting after the opening quote at
/// `pos`: the content and the position after the closing quote.
fn read_qstr(l: &str, pos: usize) -> (r: Option<(String, usize)>)
    requires
        pos <= l@.len(),
    ensures
        match r {
            Some(v) => {
                &&& pos < v.1 <= l@.len()
                &&& parse_qstr(l@.skip(pos as int)) == Some((v.0@, l@.skip(v.1 as int)))
            },
            None => parse_qstr(l@.skip(pos as int)) is None,
        },
    decreases l@.len() - pos,
{
    let len = l.unicode_len();
    if pos >= len {
        proof {
            assert(l@.skip(pos as int).len() == 0);
        }
        return None;
    }
    let ghost s = l@.skip(pos as int);
    proof {
        assert(s[0] == l@[pos as int]);
        assert(s.skip(1) =~= l@.skip(pos + 1));
    }
    let c = l.get_char(pos);
    if c == '"' {
        let out = String::new();
        proof {
            assert(parse_qstr(s) == Some((Seq::<char>::empty(), s.skip(1))));
            assert(out@ =~= Seq::<char>::empty());
        }
        return Some((out, pos + 1));
    }
    if c == '\\' {
        if pos + 1 >= len {
            proof {
                assert(s.len() < 2);
            }
            return None;
        }
        proof {
            assert(s[1] == l@[pos + 1]);
        }
        let e = l.get_char(pos + 1);
        if e == 'u' {
            if len - pos < 6 {
                proof {
                    assert(s.len() < 6);
                }
                return None;
            }
            proof {
                assert(s[2] == l@[pos + 2]);
                assert(s[3] == l@[pos + 3]);
                assert(s[4] == l@[pos + 4]);
                assert(s[5] == l@[pos + 5]);
                assert(s.skip(6) =~= l@.skip(pos + 6));
            }
            let h0 = hex_val_exec(l.get_char(pos + 2));
            let h1 = hex_val_exec(l.get_char(pos + 3));
            let h2 = hex_val_exec(l.get_char(pos + 4));
            let h3 = hex_val_exec(l.get_char(pos + 5));
            match (h0, h1, h2, h3) {
                (Some(a), Some(b), Some(cc), Some(d)) => {
                    let v = a * 4096 + b * 256 + cc * 16 + d;
                    if v >= 0x80 {
                        return None;
                    }
                    match read_qstr(l, pos + 6) {
                        Some((t, end)) => {
                            let mut out = String::new();
                            out.push((v as u8) as char);
                            out.append(t.as_str());
                            proof {
                                assert(out@ =~= seq![((v as int) as u8) as char] + t@);
                            }
                            Some((out, end))
                        },
                        None => None,
                    }
                },
                _ => None,
            }
        } else {
            match unescape_exec(e) {
                Some(u) => {
                    match read_qstr(l, pos + 2) {
                        Some((t, end)) => {
                            let mut out = String::new();
                            out.push(u);
                            out.append(t.as_str());
                            proof {
                                assert(s.skip(2) =~= l@.skip(pos + 2));
                                assert(out@ =~= seq![u] + t@);
                            }
                            Some((out, end))
                        },
                        None => {
                            proof {
                                assert(s.skip(2) =~= l@.skip(pos + 2));
                            }
                            None
                        },
                    }
                },
                None => None,
            }
        }
    } else if (c as u32) < 0x20 || (c as u32) == 0x7f {
        None
    } else {
        match read_qstr(l, pos + 1) {
            Some((t, end)) => {
                let mut out = String::new();
                out.push(c);
                out.append(t.as_str());
                proof {
                    assert(out@ =~= seq![s[0]] + t@);
                }
                Some((out, end))
            },
            None => None,
        }
    }
}

// ---------------------------------------------------------------------------
// Reading: digit strings.
// ---------------------------------------------------------------------------

/// One more digit multiplies the value by ten and adds the digit.
proof fn lemma_digits_val_snoc(s: Seq<char>, j: int)
    requires
        0 <= j < s.len(),
    ensures
        digits_val(s.take(j + 1)) == digits_val(s.take(j)) * 10 + (s[j] as u32 - 0x30),
{
    assert(s.take(j + 1).drop_last() =~= s.take(j));
    assert(s.take(j + 1).last() == s[j]);
}

/// A digit string's value is non-negative.
proof fn lemma_digits_val_nonneg(s: Seq<char>, k: int)
    requires
        0 <= k <= s.len(),
        forall|i: int| 0 <= i < k ==> 0x30 <= (#[trigger] s[i]) as u32 <= 0x39,
    ensures
        digits_val(s.take(k)) >= 0,
    decreases k,
{
    if k > 0 {
        lemma_digits_val_nonneg(s, k - 1);
        lemma_digits_val_snoc(s, k - 1);
    }
}

/// A longer digit prefix never has a smaller value.
proof fn lemma_digits_val_mono(s: Seq<char>, j: int, k: int)
    requires
        0 <= j <= k <= s.len(),
        forall|i: int| 0 <= i < k ==> 0x30 <= (#[trigger] s[i]) as u32 <= 0x39,
    ensures
        digits_val(s.take(j)) <= digits_val(s.take(k)),
    decreases k - j,
{
    if j < k {
        lemma_digits_val_mono(s, j, k - 1);
        lemma_digits_val_nonneg(s, k - 1);
        lemma_digits_val_snoc(s, k - 1);
    }
}

/// The digit run starts with digits.
proof fn lemma_digit_len_chars(s: Seq<char>)
    ensures
        0 <= digit_len(s) <= s.len(),
        forall|j: int| 0 <= j < digit_len(s) ==> 0x30 <= (#[trigger] s[j]) as u32 <= 0x39,
    decreases s.len(),
{
    if s.len() > 0 && 0x30 <= s[0] as u32 <= 0x39 {
        lemma_digit_len_chars(s.skip(1));
        assert forall|j: int| 0 <= j < digit_len(s) implies 0x30 <= (#[trigger] s[j]) as u32 <= 0x39 by {
            if j > 0 {
                assert(s[j] == s.skip(1)[j - 1]);
            }
        }
    }
}

/// Evaluate the digit run `[start, end)` of `l`, refusing values beyond a
/// port number.
fn read_port_value(l: &str, start: usize, end: usize) -> (r: Option<u16>)
    requires
        start <= end <= l@.len(),
        end - start == digit_len(l@.skip(start as int)),
    ensures
        ({
            let s = l@.skip(start as int);
            let dl = digit_len(s);
            match r {
                Some(p) => digits_val(s.take(dl)) == p as int,
                None => digits_val(s.take(dl)) > 0xffff,
            }
        }),
{
    let ghost s = l@.skip(start as int);
    let ghost dl = digit_len(s);
    proof {
        lemma_digit_len_chars(s);
    }
    let mut acc: u32 = 0;
    let mut i: usize = start;
    while i < end
        invariant
            start <= i <= end,
            end <= l@.len(),
            s == l@.skip(start as int),
            dl == digit_len(s),
            end - start == dl,
            forall|j: int| 0 <= j < dl ==> 0x30 <= (#[trigger] s[j]) as u32 <= 0x39,
            acc <= 0xffff,
            acc as int == digits_val(s.take(i - start)),
        decreases end - i,
    {
        let c = l.get_char(i);
        proof {
            assert(s[i - start] == l@[i as int]);
            lemma_digits_val_snoc(s, i - start);
        }
        let u = c as u32;
        let nv = acc * 10 + (u - 0x30);
        if nv > 0xffff {
            proof {
                lemma_digits_val_mono(s, i - start + 1, dl);
            }
            return None;
        }
        acc = nv;
        i += 1;
    }
    Some(acc as u16)
}

// ---------------------------------------------------------------------------
// Reading: the executable state machine.
// ---------------------------------------------------------------------------

/// No two entries carry the same alias.
pub open spec fn entries_unique(entries: Seq<(Seq<char>, ProfileView)>) -> bool {
    forall|i: int, j: int| 0 <= i < j < entries.len() ==> entries[i].0 != entries[j].0
}

/// The key words as string literals.
proof fn lemma_words()
    ensures
        "profiles"@ == word_profiles(),
        "default"@ == word_default(),
        "host"@ == word_host(),
        "user"@ == word_user(),
        "port"@ == word_port(),
{
    reveal_strlit("profiles");
    reveal_strlit("default");
    reveal_strlit("host");
    reveal_strlit("user");
    reveal_strlit("port");
    assert("profiles"@ =~= word_profiles());
    assert("default"@ =~= word_default());
    assert("host"@ =~= word_host());
    assert("user"@ =~= word_user());
    assert("port"@ =~= word_port());
}

/// The open profile section the reader is filling.
struct TableAcc {
    alias: String,
    host: Option<String>,
    user: Option<String>,
    port: Option<u16>,
}

/// Where in the document the reader stands.
enum SectionE {
    Top,
    Root,
    Table(TableAcc),
}

impl View for SectionE {
    type V = Section;

    closed spec fn view(&self) -> Section {
        match self {
            SectionE::Top => Section::Top,
            SectionE::Root => Section::Root,
            SectionE::Table(acc) => Section::Table(
                acc.alias@,
                match acc.host {
                    Some(h) => Some(h@),
                    None => None,
                },
                match acc.user {
                    Some(u) => Some(u@),
                    None => None,
                },
                match acc.port {
                    Some(p) => Some(p as int),
                    None => None,
                },
            ),
        }
    }
}

/// The reader's accumulated state.
struct PStateE {
    default: Option<String>,
    entries: Vec<(String, Profile)>,
    section: SectionE,
}

impl View for PStateE {
    type V = PState;

    closed spec fn view(&self) -> PState {
        PState {
            default: match self.default {
                Some(d) => Some(d@),
                None => None,
            },
            entries: self.entries@.map_values(|e: (String, Profile)| (e.0@, e.1@)),
            section: self.section@,
        }
    }
}

/// Whether `entries` already stores `alias`.
fn entries_has_exec(entries: &Vec<(String, Profile)>, alias: &str) -> (r: bool)
    ensures
        r == entries_has(entries@.map_values(|e: (String, Profile)| (e.0@, e.1@)), alias@),
{
    let ghost ev = entries@.map_values(|e: (String, Profile)| (e.0@, e.1@));
    let n = entries.len();
    let mut i: usize = 0;
    while i < n
        invariant
            n == entries.len(),
            0 <= i <= n,
            ev == entries@.map_values(|e: (String, Profile)| (e.0@, e.1@)),
            ev.len() == n,
            forall|j: int| 0 <= j < n ==> ev[j].0 == entries@[j].0@,
            forall|j: int| 0 <= j < i ==> ev[j].0 != alias@,
        decreases n - i,
    {
        if crate::util::str_eq(entries[i].0.as_str(), alias) {
            assert(ev[i as int].0 == alias@);
            return true;
        }
        i += 1;
    }
    false
}

/// Close the open profile section, if any.
fn close_section_exec(st: PStateE) -> (r: Option<PStateE>)
    ensures
        match r {
            Some(st1) => {
                &&& close_section(st@) == Some(st1@)
                &&& (entries_unique(st@.entries) ==> entries_unique(st1@.entries))
            },
            None => close_section(st@) is None,
        },
{
    let ghost stv = st@;
    let PStateE { default, mut entries, section } = st;
    match section {
        SectionE::Top => Some(PStateE { default, entries, section: SectionE::Top }),
        SectionE::Root => Some(PStateE { default, entries, section: SectionE::Root }),
        SectionE::Table(acc) => {
            let TableAcc { alias, host, user, port } = acc;
            let host = match host {
                Some(h) => h,
                None => {
                    return None;
                },
            };
            let user = match user {
                Some(u) => u,
                None => {
                    return None;
                },
            };
            if entries_has_exec(&entries, alias.as_str()) {
                return None;
            }
            let port: u16 = match port {
                Some(p) => p,
                None => 22,
            };
            let ghost alias_v = alias@;
            let profile = Profile { host, user, port };
            let ghost profile_v = profile@;
            entries.push((alias, profile));
            let st1 = PStateE { default, entries, section: SectionE::Top };
            proof {
                let expected = close_section(stv)->0;
                assert(st1@.entries =~= stv.entries.push((alias_v, profile_v)));
                assert(st1@ == expected);
                if entries_unique(stv.entries) {
                    assert forall|i: int, j: int|
                        0 <= i < j < st1@.entries.len() implies st1@.entries[i].0
                        != st1@.entries[j].0 by {
                        if j < stv.entries.len() {
                            assert(st1@.entries[i] == stv.entries[i]);
                            assert(st1@.entries[j] == stv.entries[j]);
                        } else {
                            assert(st1@.entries[i] == stv.entries[i]);
                            assert(st1@.entries[j] == (alias_v, profile_v));
                            assert(entries_has(stv.entries, stv.entries[i].0));
                        }
                    }
                }
            }
            Some(st1)
        },
    }
}

/// Apply a `[profiles]` header to the reader's state.
fn apply_header_root(st: PStateE) -> (r: Option<PStateE>)
    ensures
        match r {
            Some(st1) => {
                &&& apply_item(st@, LineItem::HeaderRoot) == Some(st1@)
                &&& (entries_unique(st@.entries) ==> entries_unique(st1@.entries))
            },
            None => apply_item(st@, LineItem::HeaderRoot) is None,
        },
{
    match close_section_exec(st) {
        Some(st1) => {
            let st2 = PStateE {
                default: st1.default,
                entries: st1.entries,
                section: SectionE::Root,
            };
            Some(st2)
        },
        None => None,
    }
}

/// Apply a `[profiles.<alias>]` header to the reader's state.
fn apply_header_table(st: PStateE, alias: String) -> (r: Option<PStateE>)
    ensures
        match r {
            Some(st1) => {
                &&& apply_item(st@, LineItem::HeaderTable(alias@)) == Some(st1@)
                &&& (entries_unique(st@.entries) ==> entries_unique(st1@.entries))
            },
            None => apply_item(st@, LineItem::HeaderTable(alias@)) is None,
        },
{
    match close_section_exec(st) {
        Some(st1) => {
            let st2 = PStateE {
                default: st1.default,
                entries: st1.entries,
                section: SectionE::Table(
                    TableAcc { alias, host: None, user: None, port: None },
                ),
            };
            Some(st2)
        },
        None => None,
    }
}

/// Apply a `<key> = "<string>"` line to the reader's state.
fn apply_kv_str(st: PStateE, key: &str, val: String) -> (r: Option<PStateE>)
    ensures
        match r {
            Some(st1) => {
                &&& apply_item(st@, LineItem::KvStr(key@, val@)) == Some(st1@)
                &&& (entries_unique(st@.entries) ==> entries_unique(st1@.entries))
            },
            None => apply_item(st@, LineItem::KvStr(key@, val@)) is None,
        },
{
    proof {
        lemma_words();
    }
    let PStateE { default, entries, section } = st;
    match section {
        SectionE::Top => {
            if crate::util::str_eq(key, "default") {
                match default {
                    None => Some(
                        PStateE { default: Some(val), entries, section: SectionE::Top },
                    ),
                    Some(_) => None,
                }
            } else {
                None
            }
        },
        SectionE::Root => None,
        SectionE::Table(acc) => {
            let TableAcc { alias, host, user, port } = acc;
            if crate::util::str_eq(key, "host") {
                match host {
                    None => Some(
                        PStateE {
                            default,
                            entries,
                            section: SectionE::Table(
                                TableAcc { alias, host: Some(val), user, port },
                            ),
                        },
                    ),
                    Some(_) => None,
                }
            } else if crate::util::str_eq(key, "user") {
                match user {
                    None => Some(
                        PStateE {
                            default,
                            entries,
                            section: SectionE::Table(
                                TableAcc { alias, host, user: Some(val), port },
                            ),
                        },
                    ),
                    Some(_) => None,
                }
            } else {
                None
            }
        },
    }
}

/// Apply a `<key> = <digits>` line to the reader's state.
fn apply_kv_int(st: PStateE, key: &str, val: u16) -> (r: Option<PStateE>)
    ensures
        match r {
            Some(st1) => {
                &&& apply_item(st@, LineItem::KvInt(key@, val as int)) == Some(st1@)
                &&& (entries_unique(st@.entries) ==> entries_unique(st1@.entries))
            },
            None => apply_item(st@, LineItem::KvInt(key@, val as int)) is None,
        },
{
    proof {
        lemma_words();
    }
    let PStateE { default, entries, section } = st;
    match section {
        SectionE::Table(acc) => {
            let TableAcc { alias, host, user, port } = acc;
            if crate::util::str_eq(key, "port") {
                match port {
                    None => Some(
                        PStateE {
                            default,
                            entries,
                            section: SectionE::Table(
                                TableAcc { alias, host, user, port: Some(val) },
                            ),
                        },
                    ),
                    Some(_) => None,
                }
            } else {
                None
            }
        },
        SectionE::Top => None,
        SectionE::Root => None,
    }
}

/// Apply one line of the document to the reader's state, deciding everything
/// [`step_line`] decides.
#[verifier::rlimit(100)]
fn step_line_exec(st: PStateE, l: &str) -> (r: Option<PStateE>)
    ensures
        match r {
            Some(st1) => {
                &&& step_line(st@, l@) == Some(st1@)
                &&& (entries_unique(st@.entries) ==> entries_unique(st1@.entries))
            },
            None => step_line(st@, l@) is None,
        },
{
    let ghost lv = l@;
    let ghost stv = st@;
    let len = l.unicode_len();
    let t0 = scan_ws(l, 0);
    proof {
        assert(lv.skip(0) =~= lv);
        assert(t0 as int == ws_len(lv));
    }
    let ghost t = lv.skip(t0 as int);
    if t0 == len {
        proof {
            assert(t.len() == 0);
        }
        return Some(st);
    }
    proof {
        assert(t[0] == lv[t0 as int]);
    }
    let c0 = l.get_char(t0);
    if c0 == '#' {
        return Some(st);
    }
    if c0 == '[' {
        let p = t0 + 1;
        let ghost hs = lv.skip(p as int);
        proof {
            assert(t.skip(1) =~= hs);
        }
        if len - p < 8 {
            proof {
                assert(hs.len() < 8);
            }
            return None;
        }
        let word = l.substring_char(p, p + 8);
        let pok = crate::util::str_eq(word, "profiles");
        proof {
            lemma_words();
            assert(word@ =~= hs.take(8));
        }
        if !pok {
            return None;
        }
        let q = p + 8;
        let ghost v = hs.skip(8);
        proof {
            assert(v =~= lv.skip(q as int));
        }
        if q == len {
            proof {
                assert(v.len() == 0);
            }
            return None;
        }
        proof {
            assert(v[0] == lv[q as int]);
        }
        let c2 = l.get_char(q);
        if c2 == ']' {
            proof {
                assert(v.skip(1) =~= lv.skip(q + 1));
            }
            let w2 = scan_ws(l, q + 1);
            proof {
                lemma_ws_only(lv.skip(q + 1));
            }
            if w2 == len {
                proof {
                    assert(ws_only(v.skip(1)));
                    assert(classify_line(lv) == Some(LineItem::HeaderRoot));
                }
                return apply_header_root(st);
            } else {
                proof {
                    assert(!ws_only(v.skip(1)));
                }
                return None;
            }
        } else if c2 == '.' {
            let wp = q + 1;
            let ghost w_ = v.skip(1);
            proof {
                assert(w_ =~= lv.skip(wp as int));
            }
            if wp == len {
                proof {
                    assert(w_.len() == 0);
                }
                return None;
            }
            proof {
                assert(w_[0] == lv[wp as int]);
            }
            let c3 = l.get_char(wp);
            if c3 == '"' {
                proof {
                    assert(w_.skip(1) =~= lv.skip(wp + 1));
                }
                match read_qstr(l, wp + 1) {
                    Some((k, end)) => {
                        let ghost rr = lv.skip(end as int);
                        if end == len {
                            proof {
                                assert(rr.len() == 0);
                            }
                            return None;
                        }
                        proof {
                            assert(rr[0] == lv[end as int]);
                        }
                        let c4 = l.get_char(end);
                        if c4 != ']' {
                            return None;
                        }
                        proof {
                            assert(rr.skip(1) =~= lv.skip(end + 1));
                        }
                        let w2 = scan_ws(l, end + 1);
                        proof {
                            lemma_ws_only(lv.skip(end + 1));
                        }
                        if w2 == len {
                            proof {
                                assert(ws_only(rr.skip(1)));
                                assert(classify_line(lv) == Some(LineItem::HeaderTable(k@)));
                            }
                            return apply_header_table(st, k);
                        } else {
                            proof {
                                assert(!ws_only(rr.skip(1)));
                            }
                            return None;
                        }
                    },
                    None => {
                        return None;
                    },
                }
            } else {
                let be = scan_bare(l, wp);
                proof {
                    assert(be - wp == bare_len(w_));
                }
                if be == wp {
                    return None;
                }
                if be == len {
                    return None;
                }
                proof {
                    assert(w_[be - wp] == lv[be as int]);
                }
                let c4 = l.get_char(be);
                if c4 != ']' {
                    return None;
                }
                proof {
                    assert(w_.skip(be - wp + 1) =~= lv.skip(be + 1));
                }
                let w2 = scan_ws(l, be + 1);
                proof {
                    lemma_ws_only(lv.skip(be + 1));
                }
                if w2 == len {
                    let kstr = l.substring_char(wp, be);
                    proof {
                        assert(ws_only(w_.skip(be - wp + 1)));
                        assert(kstr@ =~= w_.take(be - wp));
                        assert(classify_line(lv) == Some(LineItem::HeaderTable(kstr@)));
                    }
                    return apply_header_table(st, String::from_str(kstr));
                } else {
                    proof {
                        assert(!ws_only(w_.skip(be - wp + 1)));
                    }
                    return None;
                }
            }
        } else {
            return None;
        }
    }
    let ke = scan_bare(l, t0);
    proof {
        assert(ke - t0 == bare_len(t));
    }
    if ke == t0 {
        return None;
    }
    let ghost key = t.take(ke - t0);
    let ghost rest = t.skip(ke - t0);
    proof {
        assert(rest =~= lv.skip(ke as int));
    }
    let re = scan_ws(l, ke);
    let ghost rest2 = rest.skip(ws_len(rest));
    proof {
        assert(re - ke == ws_len(rest));
        assert(rest2 =~= lv.skip(re as int));
    }
    if re == len {
        proof {
            assert(rest2.len() == 0);
        }
        return None;
    }
    proof {
        assert(rest2[0] == lv[re as int]);
    }
    let ceq = l.get_char(re);
    if ceq != '=' {
        return None;
    }
    let ghost after = rest2.skip(1);
    proof {
        assert(after =~= lv.skip(re + 1));
    }
    let vp = scan_ws(l, re + 1);
    let ghost vv = after.skip(ws_len(after));
    proof {
        assert(vp - (re + 1) == ws_len(after));
        assert(vv =~= lv.skip(vp as int));
    }
    let key_str = l.substring_char(t0, ke);
    proof {
        assert(key_str@ =~= key);
    }
    if vp == len {
        proof {
            assert(vv.len() == 0);
        }
        return None;
    }
    proof {
        assert(vv[0] == lv[vp as int]);
    }
    let cv = l.get_char(vp);
    if cv == '"' {
        proof {
            assert(vv.skip(1) =~= lv.skip(vp + 1));
        }
        match read_qstr(l, vp + 1) {
            Some((sv, end)) => {
                let w2 = scan_ws(l, end);
                proof {
                    lemma_ws_only(lv.skip(end as int));
                }
                if w2 == len {
                    proof {
                        assert(ws_only(lv.skip(end as int)));
                        assert(classify_line(lv) == Some(LineItem::KvStr(key_str@, sv@)));
                    }
                    return apply_kv_str(st, key_str, sv);
                } else {
                    proof {
                        assert(!ws_only(lv.skip(end as int)));
                    }
                    return None;
                }
            },
            None => {
                return None;
            },
        }
    } else {
        let de = scan_digits(l, vp);
        proof {
            assert(de - vp == digit_len(vv));
        }
        if de == vp {
            return None;
        }
        let w2 = scan_ws(l, de);
        proof {
            assert(lv.skip(de as int) =~= vv.skip(de - vp));
            lemma_ws_only(vv.skip(de - vp));
        }
        if w2 != len {
            proof {
                assert(!ws_only(vv.skip(de - vp)));
            }
            return None;
        }
        proof {
            assert(ws_only(vv.skip(de - vp)));
        }
        match read_port_value(l, vp, de) {
            Some(pv) => {
                proof {
                    assert(classify_line(lv) == Some(
                        LineItem::KvInt(key_str@, digits_val(vv.take(de - vp))),
                    ));
                    assert(digits_val(vv.take(de - vp)) == pv as int);
                }
                return apply_kv_int(st, key_str, pv);
            },
            None => {
                proof {
                    assert(classify_line(lv) == Some(
                        LineItem::KvInt(key_str@, digits_val(vv.take(de - vp))),
                    ));
                    assert(digits_val(vv.take(de - vp)) > 0xffff);
                }
                return None;
            },
        }
    }
}

/// Read the registry from its file form.
///
/// A missing backing file is the caller's case, not this one: this function
/// only judges text. It accepts exactly the documents the format describes
/// and hands back the registry they denote; anything else is reported as
/// corrupt, never silently replaced by an empty registry.
pub fn parse_config(s: &str) -> (r: Result<Config, String>)
    ensures
        match r {
            Ok(c) => parse_config_spec(s@) == Some(c@) && c.wf(),
            Err(e) => parse_config_spec(s@) is None && e@ == "Invalid config file format"@,
        },
{
    let len = s.unicode_len();
    let mut st = PStateE { default: None, entries: Vec::new(), section: SectionE::Top };
    proof {
        assert(st@.entries =~= Seq::<(Seq<char>, ProfileView)>::empty());
        assert(st@ == init_pstate());
        assert(s@.skip(0) =~= s@);
    }
    let mut i: usize = 0;
    while i < len
        invariant
            0 <= i <= len,
            len == s@.len(),
            parse_doc(s@.skip(i as int), st@) == parse_config_spec(s@),
            entries_unique(st@.entries),
        decreases len - i,
    {
        let ghost suffix = s@.skip(i as int);
        let j = scan_nl(s, i);
        let line = s.substring_char(i, j);
        let next = if j < len {
            j + 1
        } else {
            len
        };
        proof {
            lemma_find_nl(suffix);
            if j < len {
                assert(find_nl(suffix) == Some(j - i));
                assert(line@ =~= suffix.take(j - i));
                assert(s@.skip(j + 1) =~= suffix.skip(j - i + 1));
            } else {
                assert(find_nl(suffix) is None);
                assert(line@ =~= suffix);
                assert(s@.skip(len as int) =~= Seq::<char>::empty());
                assert(suffix.len() > 0);
            }
        }
        let ghost st_prev = st@;
        st = match step_line_exec(st, line) {
            Some(st1) => st1,
            None => {
                proof {
                    assert(parse_doc(suffix, st_prev) is None);
                }
                return Err(String::from_str("Invalid config file format"));
            },
        };
        proof {
            assert(s@.skip(next as int) =~= line_split(suffix).1);
            assert(parse_doc(suffix, st_prev) == parse_doc(s@.skip(next as int), st@));
        }
        i = next;
    }
    proof {
        assert(s@.skip(len as int) =~= Seq::<char>::empty());
    }
    let ghost st_v = st@;
    match close_section_exec(st) {
        Some(st1) => {
            let ghost st1_v = st1@;
            let config = Config { default: st1.default, profiles: st1.entries };
            proof {
                assert(config@.entries == st1_v.entries);
                assert(config@.default == st1_v.default);
                assert(parse_doc(Seq::<char>::empty(), st_v) == Some(
                    ConfigView { default: st1_v.default, entries: st1_v.entries },
                ));
                assert(config@ == ConfigView { default: st1_v.default, entries: st1_v.entries });
                assert(config.wf());
            }
            Ok(config)
        },
        None => Err(String::from_str("Invalid config file format")),
    }
}

// ---------------------------------------------------------------------------
// Writing.
// ---------------------------------------------------------------------------

/// The digit character for a value below sixteen.
fn digit_char_exec(n: u32) -> (r: char)
    requires
        n < 16,
    ensures
        r == digit_char(n as int),
{
    if n == 0 {
        '0'
    } else if n == 1 {
        '1'
    } else if n == 2 {
        '2'
    } else if n == 3 {
        '3'
    } else if n == 4 {
        '4'
    } else if n == 5 {
        '5'
    } else if n == 6 {
        '6'
    } else if n == 7 {
        '7'
    } else if n == 8 {
        '8'
    } else if n == 9 {
        '9'
    } else if n == 10 {
        'a'
    } else if n == 11 {
        'b'
    } else if n == 12 {
        'c'
    } else if n == 13 {
        'd'
    } else if n == 14 {
        'e'
    } else {
        'f'
    }
}

/// Append `s` to `out` in escaped form.
fn append_escaped(out: &mut String, s: &str)
    ensures
        final(out)@ == old(out)@ + esc_str(s@),
{
    let len = s.unicode_len();
    let mut i: usize = 0;
    while i < len
        invariant
            len == s@.len(),
            0 <= i <= len,
            out@ == old(out)@ + esc_str(s@.take(i as int)),
        decreases len - i,
    {
        let c = s.get_char(i);
        if c == '"' {
            out.push('\\');
            out.push('"');
        } else if c == '\\' {
            out.push('\\');
            out.push('\\');
        } else if c == '\u{8}' {
            out.push('\\');
            out.push('b');
        } else if c == '\t' {
            out.push('\\');
            out.push('t');
        } else if c == '\n' {
            out.push('\\');
            out.push('n');
        } else if c == '\u{c}' {
            out.push('\\');
            out.push('f');
        } else if c == '\r' {
            out.push('\\');
            out.push('r');
        } else if (c as u32) < 0x20 || (c as u32) == 0x7f {
            out.push('\\');
            out.push('u');
            out.push('0');
            out.push('0');
            out.push(digit_char_exec((c as u32) / 16));
            out.push(digit_char_exec((c as u32) % 16));
        } else {
            out.push(c);
        }
        proof {
            lemma_esc_str_snoc(s@, i as int);
            assert(out@ =~= old(out)@ + esc_str(s@.take(i + 1)));
        }
        i += 1;
    }
    proof {
        assert(s@.take(len as int) =~= s@);
    }
}

/// Append `s` to `out` as a quoted string.
fn append_quoted(out: &mut String, s: &str)
    ensures
        final(out)@ == old(out)@ + quoted(s@),
{
    out.push('"');
    append_escaped(out, s);
    out.push('"');
    proof {
        assert(out@ =~= old(out)@ + quoted(s@));
    }
}

/// Append `key` to `out` as a table-header key: bare when possible.
fn append_key(out: &mut String, key: &str)
    ensures
        final(out)@ == old(out)@ + enc_key(key@),
{
    let len = key.unicode_len();
    let mut bare = len > 0;
    let mut i: usize = 0;
    while i < len
        invariant
            len == key@.len(),
            0 <= i <= len,
            bare == (len > 0 && forall|j: int| 0 <= j < i ==> is_bare_char(key@[j])),
        decreases len - i,
    {
        let c = key.get_char(i);
        let u = c as u32;
        let ok = (0x41 <= u && u <= 0x5a) || (0x61 <= u && u <= 0x7a) || (0x30 <= u && u <= 0x39)
            || u == 0x2d || u == 0x5f;
        bare = bare && ok;
        i += 1;
    }
    if bare {
        out.append(key);
    } else {
        append_quoted(out, key);
    }
}

/// Append the canonical decimal digits of `n` to `out`.
fn append_u16(out: &mut String, n: u16)
    ensures
        final(out)@ == old(out)@ + dec_digits(n as int),
    decreases n,
{
    if n < 10 {
        out.push(digit_char_exec(n as u32));
    } else {
        append_u16(out, n / 10);
        out.push(digit_char_exec((n % 10) as u32));
        proof {
            assert(out@ =~= old(out)@ + dec_digits(n as int));
        }
    }
}

/// Append one profile section to `out`.
fn append_table(out: &mut String, alias: &str, p: &Profile)
    ensures
        final(out)@ == old(out)@ + enc_profile_table(alias@, p@),
{
    out.append("[profiles.");
    append_key(out, alias);
    out.append("]\n");
    out.append("host = ");
    append_quoted(out, p.host.as_str());
    out.append("\n");
    out.append("user = ");
    append_quoted(out, p.user.as_str());
    out.append("\n");
    out.append("port = ");
    append_u16(out, p.port);
    out.append("\n");
    proof {
        assert(out@ =~= old(out)@ + enc_profile_table(alias@, p@));
    }
}

/// Write the registry in its file form: deterministic, and read back
/// unchanged by [`parse_config`].
pub fn encode_config(config: &Config) -> (r: String)
    ensures
        r@ == enc_config(config@),
{
    let mut out = String::new();
    let n = config.profiles.len();
    match &config.default {
        Some(d) => {
            out.append("default = ");
            append_quoted(&mut out, d.as_str());
            out.append("\n");
            if n > 0 {
                out.append("\n");
            }
        },
        None => {},
    }
    let ghost prefix = out@;
    let mut i: usize = 0;
    while i < n
        invariant
            n == config.profiles.len(),
            0 <= i <= n,
            config@.entries.len() == n,
            forall|j: int|
                0 <= j < n ==> config@.entries[j] == (
                    config.profiles@[j].0@,
                    config.profiles@[j].1@,
                ),
            out@ == prefix + enc_tables(config@.entries.take(i as int)),
        decreases n - i,
    {
        if i > 0 {
            out.append("\n");
        }
        let entry = &config.profiles[i];
        append_table(&mut out, entry.0.as_str(), &entry.1);
        proof {
            let entries = config@.entries;
            if i == 0 {
                assert(entries.take(1) =~= seq![entries[0]]);
                assert(enc_tables(entries.take(0int)) =~= Seq::<char>::empty());
                assert(out@ =~= prefix + enc_tables(entries.take(1int)));
            } else {
                assert(entries.take(i + 1).drop_last() =~= entries.take(i as int));
                assert(entries.take(i + 1).last() == entries[i as int]);
                lemma_enc_tables_back(entries.take(i + 1));
                assert(enc_tables(seq![entries[i as int]]) == enc_profile_table(
                    entries[i as int].0,
                    entries[i as int].1,
                ));
                assert(out@ =~= prefix + enc_tables(entries.take(i + 1)));
            }
        }
        i += 1;
    }
    proof {
        assert(config@.entries.take(n as int) =~= config@.entries);
        assert(out@ =~= enc_config(config@));
    }
    out
}

// ---------------------------------------------------------------------------
// Round trip: reading back what was written.
// ---------------------------------------------------------------------------

/// `ws_len` finds exactly the boundary described.
proof fn lemma_ws_len_is(s: Seq<char>, n: int)
    requires
        0 <= n <= s.len(),
        forall|j: int| 0 <= j < n ==> is_ws(#[trigger] s[j]),
        n < s.len() ==> !is_ws(s[n]),
    ensures
        ws_len(s) == n,
    decreases n,
{
    if n > 0 {
        lemma_ws_len_is(s.skip(1), n - 1);
        assert forall|j: int| 0 <= j < n - 1 implies is_ws(#[trigger] s.skip(1)[j]) by {
            assert(s.skip(1)[j] == s[j + 1]);
        }
        assert(n - 1 < s.skip(1).len() ==> !is_ws(s.skip(1)[n - 1]));
    }
}

/// `bare_len` finds exactly the boundary described.
proof fn lemma_bare_len_is(s: Seq<char>, n: int)
    requires
        0 <= n <= s.len(),
        forall|j: int| 0 <= j < n ==> is_bare_char(#[trigger] s[j]),
        n < s.len() ==> !is_bare_char(s[n]),
    ensures
        bare_len(s) == n,
    decreases n,
{
    if n > 0 {
        lemma_bare_len_is(s.skip(1), n - 1);
        assert forall|j: int| 0 <= j < n - 1 implies is_bare_char(#[trigger] s.skip(1)[j]) by {
            assert(s.skip(1)[j] == s[j + 1]);
        }
        assert(n - 1 < s.skip(1).len() ==> !is_bare_char(s.skip(1)[n - 1]));
    }
}

/// `digit_len` finds exactly the boundary described.
proof fn lemma_digit_len_is(s: Seq<char>, n: int)
    requires
        0 <= n <= s.len(),
        forall|j: int| 0 <= j < n ==> 0x30 <= (#[trigger] s[j]) as u32 <= 0x39,
        n < s.len() ==> !(0x30 <= s[n] as u32 <= 0x39),
    ensures
        digit_len(s) == n,
    decreases n,
{
    if n > 0 {
        lemma_digit_len_is(s.skip(1), n - 1);
        assert forall|j: int| 0 <= j < n - 1 implies 0x30 <= (#[trigger] s.skip(1)[j]) as u32
            <= 0x39 by {
            assert(s.skip(1)[j] == s[j + 1]);
        }
        assert(n - 1 < s.skip(1).len() ==> !(0x30 <= s.skip(1)[n - 1] as u32 <= 0x39));
    }
}

/// `find_nl` finds exactly the position described.
proof fn lemma_find_nl_is(s: Seq<char>, n: int)
    requires
        0 <= n < s.len(),
        s[n] == '\n',
        forall|j: int| 0 <= j < n ==> (#[trigger] s[j]) != '\n',
    ensures
        find_nl(s) == Some(n),
    decreases n,
{
    if n > 0 {
        lemma_find_nl_is(s.skip(1), n - 1);
        assert forall|j: int| 0 <= j < n - 1 implies (#[trigger] s.skip(1)[j]) != '\n' by {
            assert(s.skip(1)[j] == s[j + 1]);
        }
        assert(s.skip(1)[n - 1] == s[n]);
    }
}

/// No line break anywhere in `s`.
pub open spec fn no_nl(s: Seq<char>) -> bool {
    forall|j: int| 0 <= j < s.len() ==> (#[trigger] s[j]) != '\n'
}

/// A character's escape never holds a line break.
proof fn lemma_esc_char_no_nl(c: char)
    ensures
        no_nl(esc_char(c)),
{
}

/// An escaped string never holds a line break.
proof fn lemma_esc_str_no_nl(s: Seq<char>)
    ensures
        no_nl(esc_str(s)),
    decreases s.len(),
{
    if s.len() > 0 {
        lemma_esc_str_no_nl(s.skip(1));
        lemma_esc_char_no_nl(s[0]);
        assert forall|j: int| 0 <= j < esc_str(s).len() implies (#[trigger] esc_str(s)[j])
            != '\n' by {
            let head = esc_char(s[0]);
            if j < head.len() {
                assert(esc_str(s)[j] == head[j]);
            } else {
                assert(esc_str(s)[j] == esc_str(s.skip(1))[j - head.len()]);
            }
        }
    }
}

/// A quoted string never holds a line break.
proof fn lemma_quoted_no_nl(s: Seq<char>)
    ensures
        no_nl(quoted(s)),
{
    lemma_esc_str_no_nl(s);
    assert forall|j: int| 0 <= j < quoted(s).len() implies (#[trigger] quoted(s)[j]) != '\n' by {
        if j == 0 {
        } else if j < 1 + esc_str(s).len() {
            assert(quoted(s)[j] == esc_str(s)[j - 1]);
        } else {
            assert(quoted(s)[j] == '"');
        }
    }
}

/// The canonical digits of a number: every character is a digit, there is at
/// least one, and the value reads back.
proof fn lemma_dec_digits_val(n: int)
    requires
        n >= 0,
    ensures
        dec_digits(n).len() >= 1,
        forall|j: int| 0 <= j < dec_digits(n).len() ==> 0x30 <= (#[trigger] dec_digits(n)[j]) as u32
            <= 0x39,
        digits_val(dec_digits(n)) == n,
    decreases n,
{
    if n < 10 {
        let d = dec_digits(n);
        assert(d.drop_last() =~= Seq::<char>::empty());
        assert(digits_val(d) == digits_val(d.drop_last()) * 10 + (d.last() as u32 - 0x30));
    } else {
        lemma_dec_digits_val(n / 10);
        let d = dec_digits(n);
        let head = dec_digits(n / 10);
        assert(d =~= head + seq![digit_char(n % 10)]);
        assert(d.drop_last() =~= head);
        assert(d.last() == digit_char(n % 10));
        assert forall|j: int| 0 <= j < d.len() implies 0x30 <= (#[trigger] d[j]) as u32
            <= 0x39 by {
            if j < head.len() {
                assert(d[j] == head[j]);
            } else {
                assert(d[j] == digit_char(n % 10));
            }
        }
        assert(digits_val(d) == digits_val(head) * 10 + (digit_char(n % 10) as u32 - 0x30));
        assert(digit_char(n % 10) as u32 - 0x30 == n % 10);
        assert(n / 10 * 10 + n % 10 == n);
    }
}

/// Splitting off the first line of `l`, a break, and `rest` gives back `l`
/// and `rest`.
proof fn lemma_line_split_at(l: Seq<char>, rest: Seq<char>)
    requires
        no_nl(l),
    ensures
        line_split(l + seq!['\n'] + rest) == (l, rest),
{
    let s = l + seq!['\n'] + rest;
    assert(s[l.len() as int] == '\n');
    assert forall|j: int| 0 <= j < l.len() implies (#[trigger] s[j]) != '\n' by {
        assert(s[j] == l[j]);
    }
    lemma_find_nl_is(s, l.len() as int);
    assert(s.take(l.len() as int) =~= l);
    assert(s.skip(l.len() as int + 1) =~= rest);
}

/// Reading a quoted string back: the escaped content followed by the closing
/// quote and anything after parses to the content and that remainder.
proof fn lemma_qstr_of_quoted(x: Seq<char>, rest: Seq<char>)
    ensures
        parse_qstr(esc_str(x) + seq!['"'] + rest) == Some((x, rest)),
    decreases x.len(),
{
    let s = esc_str(x) + seq!['"'] + rest;
    if x.len() == 0 {
        assert(s =~= seq!['"'] + rest);
        assert(s[0] == '"');
        assert(s.skip(1) =~= rest);
    } else {
        let c = x[0];
        let head = esc_char(c);
        let tail = esc_str(x.skip(1)) + seq!['"'] + rest;
        assert(esc_str(x) == head + esc_str(x.skip(1)));
        assert(s =~= head + tail);
        lemma_qstr_of_quoted(x.skip(1), rest);
        assert forall|j: int| 0 <= j < head.len() implies s[j] == head[j] by {}
        if c == '"' || c == '\\' || c == '\u{8}' || c == '\t' || c == '\n' || c == '\u{c}' || c
            == '\r' {
            assert(head.len() == 2);
            assert(s[0] == '\\');
            assert(s[1] == head[1]);
            assert(s.skip(2) =~= tail);
            assert(unescape(head[1]) == Some(c));
            assert(seq![c] + x.skip(1) =~= x);
        } else if (c as u32) < 0x20 || (c as u32) == 0x7f {
            assert(head.len() == 6);
            assert(s[0] == '\\');
            assert(s[1] == 'u');
            assert(s[2] == '0');
            assert(s[3] == '0');
            assert(s[4] == digit_char((c as u32) as int / 16));
            assert(s[5] == digit_char((c as u32) as int % 16));
            assert(s.len() >= 6);
            assert(hex_val('0') == Some(0int));
            assert forall|m: int| 0 <= m < 16 implies hex_val(digit_char(m)) == Some(m) by {}
            let hi = (c as u32) as int / 16;
            let lo = (c as u32) as int % 16;
            assert(0 <= hi < 16);
            assert(0 <= lo < 16);
            let v = hex_val(s[2])->0 * 4096 + hex_val(s[3])->0 * 256 + hex_val(s[4])->0 * 16
                + hex_val(s[5])->0;
            assert(v == hi * 16 + lo);
            assert(v == c as u32);
            assert(v < 0x80);
            assert(s.skip(6) =~= tail);
            vstd::utf8::char_u32_cast(c, c as u32);
            assert(((v as u8) as char) == c);
            assert(seq![c] + x.skip(1) =~= x);
        } else {
            assert(head =~= seq![c]);
            assert(s[0] == c);
            assert(s.skip(1) =~= tail);
            assert(seq![c] + x.skip(1) =~= x);
        }
    }
}


/// A bare-key character is neither whitespace, a quote, nor a line break.
proof fn lemma_bare_char_facts(c: char)
    requires
        is_bare_char(c),
    ensures
        !is_ws(c),
        c != '"',
        c != '\n',
        c != ']',
        c != '[',
        c != '#',
{
}

/// An empty line says nothing.
proof fn lemma_line_blank()
    ensures
        classify_line(Seq::<char>::empty()) == Some(LineItem::Blank),
{
    lemma_ws_len_is(Seq::<char>::empty(), 0);
}

/// A written `<word> = "<value>"` line reads back as exactly that pair.
proof fn lemma_line_kv_str(word: Seq<char>, pre: Seq<char>, v: Seq<char>)
    requires
        pre == word + seq![' ', '=', ' '],
        word.len() > 0,
        forall|j: int| 0 <= j < word.len() ==> is_bare_char(#[trigger] word[j]),
    ensures
        classify_line(pre + quoted(v)) == Some(LineItem::KvStr(word, v)),
{
    let l = pre + quoted(v);
    let wl = word.len() as int;
    assert forall|j: int| 0 <= j < wl implies l[j] == word[j] by {}
    assert(l[wl] == ' ');
    assert(l[wl + 1] == '=');
    assert(l[wl + 2] == ' ');
    lemma_bare_char_facts(word[0]);
    lemma_ws_len_is(l, 0);
    assert(l.skip(0) =~= l);
    assert(!(l[0] == '#'));
    assert(!(l[0] == '['));
    assert forall|j: int| 0 <= j < wl implies is_bare_char(#[trigger] l[j]) by {}
    lemma_bare_len_is(l, wl);
    assert(l.take(wl) =~= word);
    let rest = l.skip(wl);
    assert(rest[0] == ' ');
    assert(rest[1] == '=');
    lemma_ws_len_is(rest, 1);
    let rest2 = rest.skip(1);
    assert(rest2 =~= l.skip(wl + 1));
    assert(rest2[0] == '=');
    let after = rest2.skip(1);
    assert(after =~= l.skip(wl + 2));
    assert(after[0] == ' ');
    assert(after[1] == '"');
    lemma_ws_len_is(after, 1);
    let vv = after.skip(1);
    assert(vv =~= quoted(v));
    assert(vv[0] == '"');
    assert(vv.skip(1) =~= esc_str(v) + seq!['"'] + Seq::<char>::empty());
    lemma_qstr_of_quoted(v, Seq::<char>::empty());
    assert(ws_only(Seq::<char>::empty()));
}

/// A written `<word> = <digits>` line reads back as exactly that pair.
proof fn lemma_line_kv_int(word: Seq<char>, pre: Seq<char>, n: int)
    requires
        pre == word + seq![' ', '=', ' '],
        word.len() > 0,
        forall|j: int| 0 <= j < word.len() ==> is_bare_char(#[trigger] word[j]),
        n >= 0,
    ensures
        classify_line(pre + dec_digits(n)) == Some(LineItem::KvInt(word, n)),
{
    let l = pre + dec_digits(n);
    let wl = word.len() as int;
    lemma_dec_digits_val(n);
    assert forall|j: int| 0 <= j < wl implies l[j] == word[j] by {}
    assert(l[wl] == ' ');
    assert(l[wl + 1] == '=');
    assert(l[wl + 2] == ' ');
    lemma_bare_char_facts(word[0]);
    lemma_ws_len_is(l, 0);
    assert(l.skip(0) =~= l);
    assert forall|j: int| 0 <= j < wl implies is_bare_char(#[trigger] l[j]) by {}
    lemma_bare_len_is(l, wl);
    assert(l.take(wl) =~= word);
    let rest = l.skip(wl);
    assert(rest[0] == ' ');
    assert(rest[1] == '=');
    lemma_ws_len_is(rest, 1);
    let rest2 = rest.skip(1);
    assert(rest2 =~= l.skip(wl + 1));
    assert(rest2[0] == '=');
    let after = rest2.skip(1);
    assert(after =~= l.skip(wl + 2));
    assert(after[0] == ' ');
    assert(after[1] == dec_digits(n)[0]);
    assert(0x30 <= after[1] as u32 <= 0x39);
    assert(!is_ws(after[1]));
    lemma_ws_len_is(after, 1);
    let vv = after.skip(1);
    assert(vv =~= dec_digits(n));
    assert(0x30 <= vv[0] as u32 <= 0x39);
    assert(vv[0] != '"');
    lemma_digit_len_is(vv, vv.len() as int);
    assert(digit_len(vv) > 0);
    assert(ws_only(vv.skip(vv.len() as int)));
    assert(vv.take(vv.len() as int) =~= dec_digits(n));
    assert(digits_val(vv.take(vv.len() as int)) == n);
}

/// A written `[profiles.<key>]` line reads back as a header for that key.
proof fn lemma_line_header(k: Seq<char>)
    ensures
        classify_line("[profiles."@ + enc_key(k) + seq![']']) == Some(LineItem::HeaderTable(k)),
{
    reveal_strlit("[profiles.");
    let pre = "[profiles."@;
    assert(pre.len() == 10);
    let l = pre + enc_key(k) + seq![']'];
    assert(l[0] == '[');
    lemma_ws_len_is(l, 0);
    assert(l.skip(0) =~= l);
    let hs = l.skip(1);
    assert(hs.take(8) =~= word_profiles());
    assert(hs.len() >= 8);
    let v = hs.skip(8);
    assert(v =~= l.skip(9));
    assert(v[0] == '.');
    assert(v[0] != ']');
    let w_ = v.skip(1);
    assert(w_ =~= enc_key(k) + seq![']']);
    if bare_key(k) {
        let kl = k.len() as int;
        assert(w_ =~= k + seq![']']);
        assert forall|j: int| 0 <= j < kl implies is_bare_char(#[trigger] w_[j]) by {
            assert(w_[j] == k[j]);
        }
        assert(w_[kl] == ']');
        assert(!is_bare_char(']'));
        lemma_bare_len_is(w_, kl);
        lemma_bare_char_facts(k[0]);
        assert(w_[0] != '"');
        assert(ws_only(w_.skip(kl + 1)));
        assert(w_.take(kl) =~= k);
    } else {
        assert(w_ =~= quoted(k) + seq![']']);
        assert(w_[0] == '"');
        assert(w_.skip(1) =~= esc_str(k) + seq!['"'] + seq![']']);
        lemma_qstr_of_quoted(k, seq![']']);
        let r = seq![']'];
        assert(r[0] == ']');
        assert(ws_only(r.skip(1)));
    }
}

/// A line followed by a break: one step of the document reader.
proof fn lemma_parse_doc_step(l: Seq<char>, rest: Seq<char>, st: PState, st1: PState)
    requires
        no_nl(l),
        step_line(st, l) == Some(st1),
    ensures
        parse_doc(l + seq!['\n'] + rest, st) == parse_doc(rest, st1),
{
    lemma_line_split_at(l, rest);
}

/// Concatenation keeps the absence of line breaks.
proof fn lemma_no_nl_concat(a: Seq<char>, b: Seq<char>)
    requires
        no_nl(a),
        no_nl(b),
    ensures
        no_nl(a + b),
{
    assert forall|j: int| 0 <= j < (a + b).len() implies (#[trigger] (a + b)[j]) != '\n' by {
        if j < a.len() {
            assert((a + b)[j] == a[j]);
        } else {
            assert((a + b)[j] == b[j - a.len()]);
        }
    }
}

/// A written key holds no line break.
proof fn lemma_no_nl_enc_key(k: Seq<char>)
    ensures
        no_nl(enc_key(k)),
{
    if bare_key(k) {
        assert forall|j: int| 0 <= j < k.len() implies (#[trigger] k[j]) != '\n' by {
            lemma_bare_char_facts(k[j]);
        }
    } else {
        lemma_quoted_no_nl(k);
    }
}

/// The canonical digits hold no line break.
proof fn lemma_no_nl_dec_digits(n: int)
    requires
        n >= 0,
    ensures
        no_nl(dec_digits(n)),
{
    lemma_dec_digits_val(n);
    assert forall|j: int| 0 <= j < dec_digits(n).len() implies (#[trigger] dec_digits(n)[j])
        != '\n' by {
        assert(0x30 <= dec_digits(n)[j] as u32 <= 0x39);
    }
}

/// Reading the three field lines of a profile section, from a freshly
/// opened table section.
#[verifier::rlimit(100)]
#[verifier::spinoff_prover]
proof fn lemma_parse_table_fields(a: Seq<char>, p: ProfileView, rest: Seq<char>, st1: PState)
    requires
        st1.section == Section::Table(a, None::<Seq<char>>, None::<Seq<char>>, None::<int>),
    ensures
        parse_doc(
            "host = "@ + quoted(p.host) + seq!['\n'] + ("user = "@ + quoted(p.user)) + seq!['\n']
                + ("port = "@ + dec_digits(p.port as int)) + seq!['\n'] + rest,
            st1,
        ) == parse_doc(
            rest,
            PState {
                default: st1.default,
                entries: st1.entries,
                section: Section::Table(a, Some(p.host), Some(p.user), Some(p.port as int)),
            },
        ),
{
    reveal_strlit("host = ");
    reveal_strlit("user = ");
    reveal_strlit("port = ");
    lemma_words();
    let hostl = "host = "@ + quoted(p.host);
    let userl = "user = "@ + quoted(p.user);
    let portl = "port = "@ + dec_digits(p.port as int);
    let rest1 = hostl + seq!['\n'] + userl + seq!['\n'] + portl + seq!['\n'] + rest;
    let rest2 = userl + seq!['\n'] + portl + seq!['\n'] + rest;
    let rest3 = portl + seq!['\n'] + rest;
    assert(no_nl("host = "@));
    assert(no_nl("user = "@));
    assert(no_nl("port = "@));
    lemma_quoted_no_nl(p.host);
    lemma_quoted_no_nl(p.user);
    lemma_no_nl_dec_digits(p.port as int);
    lemma_no_nl_concat("host = "@, quoted(p.host));
    lemma_no_nl_concat("user = "@, quoted(p.user));
    lemma_no_nl_concat("port = "@, dec_digits(p.port as int));
    // the host line
    assert("host = "@ =~= word_host() + seq![' ', '=', ' ']);
    lemma_line_kv_str(word_host(), "host = "@, p.host);
    let st2 = PState {
        default: st1.default,
        entries: st1.entries,
        section: Section::Table(a, Some(p.host), None, None),
    };
    assert(step_line(st1, hostl) == Some(st2));
    assert(rest1 =~= hostl + seq!['\n'] + rest2);
    lemma_parse_doc_step(hostl, rest2, st1, st2);
    // the user line
    assert("user = "@ =~= word_user() + seq![' ', '=', ' ']);
    lemma_line_kv_str(word_user(), "user = "@, p.user);
    let st3 = PState {
        default: st2.default,
        entries: st2.entries,
        section: Section::Table(a, Some(p.host), Some(p.user), None),
    };
    assert(step_line(st2, userl) == Some(st3));
    assert(rest2 =~= userl + seq!['\n'] + rest3);
    lemma_parse_doc_step(userl, rest3, st2, st3);
    // the port line
    assert("port = "@ =~= word_port() + seq![' ', '=', ' ']);
    lemma_line_kv_int(word_port(), "port = "@, p.port as int);
    let st4 = PState {
        default: st3.default,
        entries: st3.entries,
        section: Section::Table(a, Some(p.host), Some(p.user), Some(p.port as int)),
    };
    assert(step_line(st3, portl) == Some(st4));
    lemma_parse_doc_step(portl, rest, st3, st4);
}

/// Reading one written profile section: it leaves the reader inside a fully
/// filled table section, with the previous section closed.
#[verifier::rlimit(100)]
#[verifier::spinoff_prover]
proof fn lemma_parse_table_block(a: Seq<char>, p: ProfileView, rest: Seq<char>, st: PState)
    requires
        close_section(st) is Some,
    ensures
        parse_doc(enc_profile_table(a, p) + rest, st) == parse_doc(
            rest,
            PState {
                default: close_section(st)->0.default,
                entries: close_section(st)->0.entries,
                section: Section::Table(a, Some(p.host), Some(p.user), Some(p.port as int)),
            },
        ),
{
    reveal_strlit("[profiles.");
    reveal_strlit("]\n");
    reveal_strlit("host = ");
    reveal_strlit("user = ");
    reveal_strlit("port = ");
    reveal_strlit("\n");
    let header = "[profiles."@ + enc_key(a) + seq![']'];
    let hostl = "host = "@ + quoted(p.host);
    let userl = "user = "@ + quoted(p.user);
    let portl = "port = "@ + dec_digits(p.port as int);
    let doc = enc_profile_table(a, p) + rest;
    let rest1 = hostl + seq!['\n'] + userl + seq!['\n'] + portl + seq!['\n'] + rest;
    assert(no_nl("[profiles."@));
    assert(no_nl(seq![']']));
    lemma_no_nl_enc_key(a);
    lemma_no_nl_concat("[profiles."@, enc_key(a));
    lemma_no_nl_concat("[profiles."@ + enc_key(a), seq![']']);
    // the header line
    lemma_line_header(a);
    let st0 = close_section(st)->0;
    let st1 = PState {
        default: st0.default,
        entries: st0.entries,
        section: Section::Table(a, None, None, None),
    };
    assert(step_line(st, header) == Some(st1));
    assert(doc =~= header + seq!['\n'] + rest1);
    lemma_parse_doc_step(header, rest1, st, st1);
    // the field lines
    lemma_parse_table_fields(a, p, rest, st1);
    assert(rest1 =~= "host = "@ + quoted(p.host) + seq!['\n'] + ("user = "@ + quoted(p.user))
        + seq!['\n'] + ("port = "@ + dec_digits(p.port as int)) + seq!['\n'] + rest);
}

/// Reading the whole written section list appends exactly those entries.
proof fn lemma_parse_tables(entries: Seq<(Seq<char>, ProfileView)>, st: PState)
    requires
        close_section(st) is Some,
        entries_unique(close_section(st)->0.entries + entries),
    ensures
        parse_doc(enc_tables(entries), st) == Some(
            ConfigView {
                default: close_section(st)->0.default,
                entries: close_section(st)->0.entries + entries,
            },
        ),
    decreases entries.len(),
{
    reveal_strlit("\n");
    let base = close_section(st)->0;
    if entries.len() == 0 {
        assert(base.entries + entries =~= base.entries);
        assert(parse_doc(Seq::<char>::empty(), st) == Some(
            ConfigView { default: base.default, entries: base.entries },
        ));
    } else {
        let e0 = entries[0];
        let a = e0.0;
        let p = e0.1;
        let combined = base.entries + entries;
        let bn = base.entries.len() as int;
        assert(combined[bn] == e0);
        assert(!entries_has(base.entries, a)) by {
            if entries_has(base.entries, a) {
                let j = choose|j: int|
                    0 <= j < base.entries.len() && base.entries[j].0 == a;
                assert(combined[j] == base.entries[j]);
                assert(combined[j].0 == combined[bn].0);
            }
        }
        let st4 = PState {
            default: base.default,
            entries: base.entries,
            section: Section::Table(a, Some(p.host), Some(p.user), Some(p.port as int)),
        };
        let pushed = ProfileView { host: p.host, user: p.user, port: (p.port as int) as u16 };
        assert(pushed == p);
        let base2 = PState {
            default: base.default,
            entries: base.entries.push((a, p)),
            section: Section::Top,
        };
        assert(close_section(st4) == Some(base2));
        if entries.len() == 1 {
            lemma_parse_table_block(a, p, Seq::<char>::empty(), st);
            assert(enc_tables(entries) =~= enc_profile_table(a, p) + Seq::<char>::empty());
            assert(parse_doc(enc_tables(entries), st) == parse_doc(Seq::<char>::empty(), st4));
            assert(parse_doc(Seq::<char>::empty(), st4) == Some(
                ConfigView { default: base2.default, entries: base2.entries },
            ));
            assert(base.entries.push((a, p)) =~= base.entries + entries) by {
                assert((a, p) == e0);
            }
        } else {
            let tail = enc_tables(entries.skip(1));
            let rest = seq!['\n'] + tail;
            lemma_parse_table_block(a, p, rest, st);
            assert(enc_tables(entries) =~= enc_profile_table(a, p) + rest);
            assert(parse_doc(enc_tables(entries), st) == parse_doc(rest, st4));
            // the separating blank line
            assert(rest[0] == '\n');
            lemma_find_nl_is(rest, 0);
            assert(rest.take(0) =~= Seq::<char>::empty());
            assert(rest.skip(1) =~= tail);
            lemma_line_blank();
            assert(step_line(st4, Seq::<char>::empty()) == Some(st4));
            assert(parse_doc(rest, st4) == parse_doc(tail, st4));
            // the remaining sections, from the state with e0 appended
            assert(close_section(st4) == Some(base2));
            assert(base2.entries + entries.skip(1) =~= combined) by {
                assert((a, p) == e0);
            }
            lemma_parse_tables(entries.skip(1), st4);
            assert(parse_doc(tail, st4) == Some(
                ConfigView { default: base2.default, entries: base2.entries + entries.skip(1) },
            ));
        }
    }
}

/// Reading back a written registry returns it unchanged: the default, the
/// profiles, their fields, and their order all survive the trip through the
/// file format.
pub proof fn lemma_codec_round_trip(c: ConfigView)
    requires
        c.wf(),
    ensures
        parse_config_spec(enc_config(c)) == Some(c),
{
    reveal_strlit("default = ");
    reveal_strlit("\n");
    lemma_words();
    let init = init_pstate();
    assert(close_section(init) == Some(init));
    assert(entries_unique(c.entries));
    match c.default {
        None => {
            if c.entries.len() == 0 {
                assert(enc_config(c) =~= Seq::<char>::empty());
                assert(parse_doc(Seq::<char>::empty(), init) == Some(
                    ConfigView { default: None, entries: Seq::empty() },
                ));
                assert(c == ConfigView { default: None::<Seq<char>>, entries: c.entries });
                assert(c.entries =~= Seq::<(Seq<char>, ProfileView)>::empty());
            } else {
                assert(enc_config(c) =~= enc_tables(c.entries));
                assert(init.entries + c.entries =~= c.entries);
                lemma_parse_tables(c.entries, init);
            }
        },
        Some(d) => {
            let dline = "default = "@ + quoted(d);
            lemma_quoted_no_nl(d);
            assert forall|j: int| 0 <= j < dline.len() implies (#[trigger] dline[j]) != '\n' by {
                if j < 10 {
                } else {
                    assert(dline[j] == quoted(d)[j - 10]);
                }
            }
            assert("default = "@ =~= word_default() + seq![' ', '=', ' ']);
            lemma_line_kv_str(word_default(), "default = "@, d);
            let st1 = PState { default: Some(d), entries: Seq::empty(), section: Section::Top };
            assert(step_line(init, dline) == Some(st1));
            if c.entries.len() == 0 {
                assert(enc_config(c) =~= dline + seq!['\n'] + Seq::<char>::empty());
                lemma_line_split_at(dline, Seq::<char>::empty());
                assert(parse_doc(enc_config(c), init) == parse_doc(Seq::<char>::empty(), st1));
                assert(parse_doc(Seq::<char>::empty(), st1) == Some(
                    ConfigView { default: Some(d), entries: Seq::empty() },
                ));
                assert(c.entries =~= Seq::<(Seq<char>, ProfileView)>::empty());
            } else {
                let tail = enc_tables(c.entries);
                let rest = seq!['\n'] + tail;
                assert(enc_config(c) =~= dline + seq!['\n'] + rest);
                lemma_line_split_at(dline, rest);
                assert(parse_doc(enc_config(c), init) == parse_doc(rest, st1));
                assert(rest[0] == '\n');
                lemma_find_nl_is(rest, 0);
                assert(rest.take(0) =~= Seq::<char>::empty());
                assert(rest.skip(1) =~= tail);
                lemma_line_blank();
                assert(step_line(st1, Seq::<char>::empty()) == Some(st1));
                assert(parse_doc(rest, st1) == parse_doc(tail, st1));
                assert(close_section(st1) == Some(st1));
                assert(st1.entries + c.entries =~= c.entries);
                lemma_parse_tables(c.entries, st1);
            }
        },
    }
}

} // verus!
