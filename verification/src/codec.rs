//! The store's wire format: a map-of-maps as structured text.
//!
//! Each profile is one table: a header line holding the profile key, then one
//! `key = "value"` line per field, with `name` and `email` required. Keys are
//! written bare when they consist of letters, digits, `-` and `_`, and quoted
//! otherwise; quoted text escapes the quote, the backslash and line breaks,
//! so every line of the file is one line of text. Unknown fields are
//! tolerated and ignored; duplicate profile keys and duplicate `name` or
//! `email` fields are corruption. `load` accepts exactly the texts this
//! grammar describes and `serialize` emits one of them, a round trip.

use vstd::prelude::*;

use crate::store::{EntryV, ProfileV, Profile, Store, contains_key, opt_view, str_eq, unique_keys};

verus! {

// ---------------------------------------------------------------------------
// Escaping of quoted text
// ---------------------------------------------------------------------------

/// Characters that may not stand bare inside quoted text.
pub open spec fn is_escaped_char(c: char) -> bool {
    c == '"' || c == '\\' || c == '\n' || c == '\r'
}

/// The character written after the backslash for an escaped character.
pub open spec fn esc_code(c: char) -> char {
    if c == '\n' {
        'n'
    } else if c == '\r' {
        'r'
    } else {
        c
    }
}

/// The character an escape code stands for, if the code is known.
pub open spec fn decode_esc(c: char) -> Option<char> {
    if c == '"' {
        Some('"')
    } else if c == '\\' {
        Some('\\')
    } else if c == 'n' {
        Some('\n')
    } else if c == 'r' {
        Some('\r')
    } else {
        None
    }
}

/// The written form of one character of quoted text.
pub open spec fn esc_char(c: char) -> Seq<char> {
    if is_escaped_char(c) {
        seq!['\\', esc_code(c)]
    } else {
        seq![c]
    }
}

/// The written form of quoted text.
pub open spec fn escape_seq(s: Seq<char>) -> Seq<char>
    decreases s.len(),
{
    if s.len() == 0 {
        Seq::empty()
    } else {
        esc_char(s[0]) + escape_seq(s.drop_first())
    }
}

/// Reads quoted text up to and over the closing quote: returns the decoded
/// text and what follows the closing quote, or nothing when the text is not
/// closed or holds an unknown escape or a bare line break.
pub open spec fn parse_quoted(s: Seq<char>) -> Option<(Seq<char>, Seq<char>)>
    decreases s.len(),
{
    if s.len() == 0 {
        None
    } else if s[0] == '"' {
        Some((Seq::empty(), s.drop_first()))
    } else if s[0] == '\\' {
        if s.len() < 2 {
            None
        } else {
            match decode_esc(s[1]) {
                Some(c) => match parse_quoted(s.skip(2)) {
                    Some(p) => Some((seq![c] + p.0, p.1)),
                    None => None,
                },
                None => None,
            }
        }
    } else if s[0] == '\n' || s[0] == '\r' {
        None
    } else {
        match parse_quoted(s.drop_first()) {
            Some(p) => Some((seq![s[0]] + p.0, p.1)),
            None => None,
        }
    }
}

// ---------------------------------------------------------------------------
// Keys
// ---------------------------------------------------------------------------

/// Characters a key may be written from without quotes: letters, digits,
/// `-` and `_`.
pub open spec fn is_bare_char(c: char) -> bool {
    let u = c as u32;
    (97 <= u && u <= 122) || (65 <= u && u <= 90) || (48 <= u && u <= 57) || u == 45 || u == 95
}

/// Whether a key is written without quotes.
pub open spec fn is_bare_key(k: Seq<char>) -> bool {
    k.len() > 0 && (forall|i: int| 0 <= i < k.len() ==> is_bare_char(k[i]))
}

/// The length of the longest bare-character prefix of `s`.
pub open spec fn bare_len(s: Seq<char>) -> int
    decreases s.len(),
{
    if s.len() == 0 || !is_bare_char(s[0]) {
        0
    } else {
        1 + bare_len(s.drop_first())
    }
}

/// Reads a key, bare or quoted: returns the key and what follows it.
pub open spec fn parse_key(s: Seq<char>) -> Option<(Seq<char>, Seq<char>)> {
    if s.len() > 0 && s[0] == '"' {
        parse_quoted(s.drop_first())
    } else if bare_len(s) > 0 {
        Some((s.take(bare_len(s)), s.skip(bare_len(s))))
    } else {
        None
    }
}

/// The written form of a key.
pub open spec fn render_key(k: Seq<char>) -> Seq<char> {
    if is_bare_key(k) {
        k
    } else {
        seq!['"'] + escape_seq(k) + seq!['"']
    }
}

// ---------------------------------------------------------------------------
// Lines
// ---------------------------------------------------------------------------

/// What one line of the file says.
pub enum LineKind {
    /// An empty line.
    Blank,
    /// `[key]`: the following fields belong to this profile.
    Header(Seq<char>),
    /// `key = "value"`: one field of the current profile.
    Field(Seq<char>, Seq<char>),
    /// Anything else: corruption.
    Bad,
}

/// Reads one line.
pub open spec fn classify_line(line: Seq<char>) -> LineKind {
    if line.len() == 0 {
        LineKind::Blank
    } else if line[0] == '[' {
        match parse_key(line.drop_first()) {
            Some(p) => if p.1 == seq![']'] {
                LineKind::Header(p.0)
            } else {
                LineKind::Bad
            },
            None => LineKind::Bad,
        }
    } else {
        match parse_key(line) {
            Some(p) => {
                let rest = p.1;
                if rest.len() >= 4 && rest[0] == ' ' && rest[1] == '=' && rest[2] == ' '
                    && rest[3] == '"' {
                    match parse_quoted(rest.skip(4)) {
                        Some(q) => if q.1.len() == 0 {
                            LineKind::Field(p.0, q.0)
                        } else {
                            LineKind::Bad
                        },
                        None => LineKind::Bad,
                    }
                } else {
                    LineKind::Bad
                }
            },
            None => LineKind::Bad,
        }
    }
}

/// The lines of a text: split at every line feed; a final line may stand
/// without one.
pub open spec fn split_lines(s: Seq<char>) -> Seq<Seq<char>>
    decreases s.len(),
{
    if s.len() == 0 {
        Seq::empty()
    } else if s[0] == '\n' {
        seq![Seq::<char>::empty()] + split_lines(s.drop_first())
    } else {
        let rest = split_lines(s.drop_first());
        if rest.len() == 0 {
            seq![seq![s[0]]]
        } else {
            seq![seq![s[0]] + rest[0]] + rest.drop_first()
        }
    }
}

/// The key of the required display-name field.
pub open spec fn name_key() -> Seq<char> {
    seq!['n', 'a', 'm', 'e']
}

/// The key of the required email field.
pub open spec fn email_key() -> Seq<char> {
    seq!['e', 'm', 'a', 'i', 'l']
}

// ---------------------------------------------------------------------------
// Reading a whole file: one pass over its lines
// ---------------------------------------------------------------------------

/// A profile whose table is still being read.
pub struct PartialEntry {
    pub key: Seq<char>,
    pub name: Option<Seq<char>>,
    pub email: Option<Seq<char>>,
}

/// The reader's state between lines.
pub struct ParseState {
    /// Profiles whose tables are complete, in order of appearance.
    pub done: Seq<EntryV>,
    /// The profile whose table is being read, if any.
    pub cur: Option<PartialEntry>,
    /// Whether corruption was seen.
    pub failed: bool,
}

/// The state before the first line.
pub open spec fn init_state() -> ParseState {
    ParseState { done: Seq::empty(), cur: None, failed: false }
}

/// The state with corruption seen.
pub open spec fn failed_state() -> ParseState {
    ParseState { done: Seq::empty(), cur: None, failed: true }
}

/// Finishes the table being read: its `name` and `email` must both have been
/// seen, and its key must be new.
pub open spec fn close_cur(st: ParseState) -> ParseState {
    if st.failed {
        st
    } else {
        match st.cur {
            None => st,
            Some(p) => match (p.name, p.email) {
                (Some(n), Some(e)) => if contains_key(st.done, p.key) {
                    failed_state()
                } else {
                    ParseState {
                        done: st.done.push(
                            EntryV { key: p.key, profile: ProfileV { name: n, email: e } },
                        ),
                        cur: None,
                        failed: false,
                    }
                },
                _ => failed_state(),
            },
        }
    }
}

/// Reads one line into the state.
pub open spec fn step_line(st: ParseState, line: Seq<char>) -> ParseState {
    if st.failed {
        st
    } else {
        match classify_line(line) {
            LineKind::Blank => st,
            LineKind::Header(k) => {
                let st2 = close_cur(st);
                if st2.failed {
                    st2
                } else {
                    ParseState {
                        done: st2.done,
                        cur: Some(PartialEntry { key: k, name: None, email: None }),
                        failed: false,
                    }
                }
            },
            LineKind::Field(k, v) => match st.cur {
                None => failed_state(),
                Some(p) => if k == name_key() {
                    if p.name is Some {
                        failed_state()
                    } else {
                        ParseState {
                            done: st.done,
                            cur: Some(PartialEntry { key: p.key, name: Some(v), email: p.email }),
                            failed: false,
                        }
                    }
                } else if k == email_key() {
                    if p.email is Some {
                        failed_state()
                    } else {
                        ParseState {
                            done: st.done,
                            cur: Some(PartialEntry { key: p.key, name: p.name, email: Some(v) }),
                            failed: false,
                        }
                    }
                } else {
                    st
                },
            },
            LineKind::Bad => failed_state(),
        }
    }
}

/// Reads a sequence of lines into the state.
pub open spec fn run_lines(st: ParseState, lines: Seq<Seq<char>>) -> ParseState
    decreases lines.len(),
{
    if lines.len() == 0 {
        st
    } else {
        run_lines(step_line(st, lines[0]), lines.drop_first())
    }
}

/// What a text says: the profiles it holds, or nothing when it is corrupt.
pub open spec fn spec_load(s: Seq<char>) -> Option<Seq<EntryV>> {
    let st = close_cur(run_lines(init_state(), split_lines(s)));
    if st.failed {
        None
    } else {
        Some(st.done)
    }
}

// ---------------------------------------------------------------------------
// Writing a whole file
// ---------------------------------------------------------------------------

/// The written form of one profile: its three lines.
pub open spec fn render_entry(e: EntryV) -> Seq<char> {
    seq!['['] + render_key(e.key) + seq![']', '\n'] + name_key() + seq![' ', '=', ' ', '"']
        + escape_seq(e.profile.name) + seq!['"', '\n'] + email_key() + seq![' ', '=', ' ', '"']
        + escape_seq(e.profile.email) + seq!['"', '\n']
}

/// The written form of a store.
pub open spec fn spec_serialize(s: Seq<EntryV>) -> Seq<char>
    decreases s.len(),
{
    if s.len() == 0 {
        Seq::empty()
    } else {
        render_entry(s[0]) + spec_serialize(s.drop_first())
    }
}

/// The header line of a profile's table, without its line feed.
pub open spec fn header_line(e: EntryV) -> Seq<char> {
    seq!['['] + render_key(e.key) + seq![']']
}

/// The `name` line of a profile's table, without its line feed.
pub open spec fn name_line(e: EntryV) -> Seq<char> {
    name_key() + seq![' ', '=', ' ', '"'] + escape_seq(e.profile.name) + seq!['"']
}

/// The `email` line of a profile's table, without its line feed.
pub open spec fn email_line(e: EntryV) -> Seq<char> {
    email_key() + seq![' ', '=', ' ', '"'] + escape_seq(e.profile.email) + seq!['"']
}

/// The written form of a store, line by line.
pub open spec fn flat_lines(s: Seq<EntryV>) -> Seq<Seq<char>>
    decreases s.len(),
{
    if s.len() == 0 {
        Seq::empty()
    } else {
        seq![header_line(s[0]), name_line(s[0]), email_line(s[0])] + flat_lines(s.drop_first())
    }
}

// ---------------------------------------------------------------------------
// The round trip, step by step
// ---------------------------------------------------------------------------

/// Escaped text never holds a line feed.
proof fn lemma_escape_no_newline(s: Seq<char>)
    ensures
        forall|i: int| 0 <= i < escape_seq(s).len() ==> escape_seq(s)[i] != '\n',
    decreases s.len(),
{
    if s.len() > 0 {
        lemma_escape_no_newline(s.drop_first());
        assert(escape_seq(s) == esc_char(s[0]) + escape_seq(s.drop_first()));
        assert forall|i: int| 0 <= i < escape_seq(s).len() implies escape_seq(s)[i] != '\n' by {
            if i < esc_char(s[0]).len() {
                assert(escape_seq(s)[i] == esc_char(s[0])[i]);
                assert(esc_char(s[0])[i] != '\n');
            } else {
                assert(escape_seq(s)[i] == escape_seq(s.drop_first())[i - esc_char(
                    s[0],
                ).len()]);
            }
        }
    }
}

/// A written key never holds a line feed.
proof fn lemma_render_key_no_newline(k: Seq<char>)
    ensures
        forall|i: int| 0 <= i < render_key(k).len() ==> render_key(k)[i] != '\n',
{
    lemma_escape_no_newline(k);
    if is_bare_key(k) {
        assert forall|i: int| 0 <= i < render_key(k).len() implies render_key(k)[i] != '\n' by {
            assert(is_bare_char(k[i]));
        }
    }
}

/// Reading quoted text undoes writing it, whatever follows the closing quote.
proof fn lemma_parse_quoted_escape(s: Seq<char>, rest: Seq<char>)
    ensures
        parse_quoted(escape_seq(s) + seq!['"'] + rest) == Some((s, rest)),
    decreases s.len(),
{
    let t = escape_seq(s) + seq!['"'] + rest;
    if s.len() == 0 {
        assert(t[0] == '"');
        assert(t.drop_first() =~= rest);
    } else {
        let c = s[0];
        lemma_parse_quoted_escape(s.drop_first(), rest);
        let t2 = escape_seq(s.drop_first()) + seq!['"'] + rest;
        assert(escape_seq(s) == esc_char(c) + escape_seq(s.drop_first()));
        if is_escaped_char(c) {
            assert(t =~= seq!['\\', esc_code(c)] + t2);
            assert(t[0] == '\\');
            assert(t.len() >= 2);
            assert(t[1] == esc_code(c));
            assert(decode_esc(esc_code(c)) == Some(c));
            assert(t.skip(2) =~= t2);
            assert(seq![c] + s.drop_first() =~= s);
        } else {
            assert(t =~= seq![c] + t2);
            assert(t[0] == c);
            assert(t[0] != '"' && t[0] != '\\' && t[0] != '\n' && t[0] != '\r');
            assert(t.drop_first() =~= t2);
            assert(seq![c] + s.drop_first() =~= s);
        }
    }
}

/// The bare prefix of a bare key followed by a non-bare character is the key.
proof fn lemma_bare_len_concat(k: Seq<char>, rest: Seq<char>)
    requires
        forall|i: int| 0 <= i < k.len() ==> is_bare_char(k[i]),
        rest.len() == 0 || !is_bare_char(rest[0]),
    ensures
        bare_len(k + rest) == k.len(),
    decreases k.len(),
{
    if k.len() == 0 {
        assert(k + rest =~= rest);
    } else {
        lemma_bare_len_concat(k.drop_first(), rest);
        assert((k + rest)[0] == k[0]);
        assert((k + rest).drop_first() =~= k.drop_first() + rest);
    }
}

/// Reading a key undoes writing it, when what follows opens neither a bare
/// key nor a quoted one.
proof fn lemma_parse_key_render(k: Seq<char>, rest: Seq<char>)
    requires
        rest.len() > 0,
        !is_bare_char(rest[0]),
        rest[0] != '"',
    ensures
        parse_key(render_key(k) + rest) == Some((k, rest)),
{
    let t = render_key(k) + rest;
    if is_bare_key(k) {
        assert(t[0] == k[0]);
        assert(is_bare_char(k[0]));
        assert(t[0] != '"');
        lemma_bare_len_concat(k, rest);
        assert(bare_len(t) == k.len());
        assert(t.take(k.len() as int) =~= k);
        assert(t.skip(k.len() as int) =~= rest);
    } else {
        assert(t[0] == '"');
        assert(t.drop_first() =~= escape_seq(k) + seq!['"'] + rest);
        lemma_parse_quoted_escape(k, rest);
    }
}

/// Reading a written header line names the profile key.
proof fn lemma_classify_header(k: Seq<char>)
    ensures
        classify_line(seq!['['] + render_key(k) + seq![']']) == LineKind::Header(k),
{
    let line = seq!['['] + render_key(k) + seq![']'];
    assert(line[0] == '[');
    assert(line.drop_first() =~= render_key(k) + seq![']']);
    lemma_parse_key_render(k, seq![']']);
}

/// Reading a written field line yields the field key and its value.
proof fn lemma_classify_field(fk: Seq<char>, v: Seq<char>)
    requires
        fk.len() > 0,
        forall|i: int| 0 <= i < fk.len() ==> is_bare_char(fk[i]),
    ensures
        classify_line(fk + seq![' ', '=', ' ', '"'] + escape_seq(v) + seq!['"']) == LineKind::Field(
            fk,
            v,
        ),
{
    let rest0 = seq![' ', '=', ' ', '"'] + escape_seq(v) + seq!['"'];
    let line = fk + seq![' ', '=', ' ', '"'] + escape_seq(v) + seq!['"'];
    assert(line =~= fk + rest0);
    assert(classify_line(line) == classify_line(fk + rest0));
    assert(line[0] == fk[0]);
    assert(is_bare_char(fk[0]));
    assert(line[0] != '[' && line[0] != '"');
    assert(rest0[0] == ' ');
    assert(!is_bare_char(' '));
    lemma_bare_len_concat(fk, rest0);
    assert(bare_len(line) == fk.len());
    assert(line.take(fk.len() as int) =~= fk);
    assert(line.skip(fk.len() as int) =~= rest0);
    assert(parse_key(line) == Some((fk, rest0)));
    assert(rest0.len() >= 4 && rest0[0] == ' ' && rest0[1] == '=' && rest0[2] == ' ' && rest0[3]
        == '"');
    assert(rest0.skip(4) =~= escape_seq(v) + seq!['"']);
    lemma_parse_quoted_escape(v, Seq::empty());
    assert(escape_seq(v) + seq!['"'] + Seq::<char>::empty() =~= escape_seq(v) + seq!['"']);
    assert(parse_quoted(rest0.skip(4)) == Some((v, Seq::<char>::empty())));
}

/// Whether a text holds no line feed.
spec fn no_newline(s: Seq<char>) -> bool {
    forall|i: int| 0 <= i < s.len() ==> s[i] != '\n'
}

/// The field keys: short, bare, and distinct.
proof fn lemma_field_keys()
    ensures
        name_key().len() == 4,
        email_key().len() == 5,
        forall|i: int| 0 <= i < name_key().len() ==> is_bare_char(name_key()[i]),
        forall|i: int| 0 <= i < email_key().len() ==> is_bare_char(email_key()[i]),
        name_key() != email_key(),
{
    assert forall|i: int| 0 <= i < name_key().len() implies is_bare_char(name_key()[i]) by {
        if i == 0 {
            assert(name_key()[0] == 'n');
        } else if i == 1 {
            assert(name_key()[1] == 'a');
        } else if i == 2 {
            assert(name_key()[2] == 'm');
        } else {
            assert(name_key()[3] == 'e');
        }
    }
    assert forall|i: int| 0 <= i < email_key().len() implies is_bare_char(email_key()[i]) by {
        if i == 0 {
            assert(email_key()[0] == 'e');
        } else if i == 1 {
            assert(email_key()[1] == 'm');
        } else if i == 2 {
            assert(email_key()[2] == 'a');
        } else if i == 3 {
            assert(email_key()[3] == 'i');
        } else {
            assert(email_key()[4] == 'l');
        }
    }
}

/// None of a profile's three written lines holds a line feed.
proof fn lemma_lines_no_newline(e: EntryV)
    ensures
        no_newline(header_line(e)),
        no_newline(name_line(e)),
        no_newline(email_line(e)),
{
    lemma_render_key_no_newline(e.key);
    lemma_escape_no_newline(e.profile.name);
    lemma_escape_no_newline(e.profile.email);
    lemma_field_keys();
    let h = header_line(e);
    assert forall|i: int| 0 <= i < h.len() implies h[i] != '\n' by {
        if i == 0 {
            assert(h[0] == '[');
        } else if i < 1 + render_key(e.key).len() {
            assert(h[i] == render_key(e.key)[i - 1]);
        } else {
            assert(h[i] == ']');
        }
    }
    let mid = seq![' ', '=', ' ', '"'];
    let n = name_line(e);
    assert forall|i: int| 0 <= i < n.len() implies n[i] != '\n' by {
        let a: int = name_key().len() as int;
        let b: int = a + 4;
        let c: int = b + escape_seq(e.profile.name).len() as int;
        if i < a {
            assert(n[i] == name_key()[i]);
            assert(is_bare_char(n[i]));
        } else if i < b {
            assert(n[i] == mid[i - a]);
        } else if i < c {
            assert(n[i] == escape_seq(e.profile.name)[i - b]);
        } else {
            assert(n[i] == '"');
        }
    }
    let m = email_line(e);
    assert forall|i: int| 0 <= i < m.len() implies m[i] != '\n' by {
        let a: int = email_key().len() as int;
        let b: int = a + 4;
        let c: int = b + escape_seq(e.profile.email).len() as int;
        if i < a {
            assert(m[i] == email_key()[i]);
            assert(is_bare_char(m[i]));
        } else if i < b {
            assert(m[i] == mid[i - a]);
        } else if i < c {
            assert(m[i] == escape_seq(e.profile.email)[i - b]);
        } else {
            assert(m[i] == '"');
        }
    }
}

/// Splitting takes one line, without its line feed, off the front.
proof fn lemma_split_prepend_line(line: Seq<char>, rest: Seq<char>)
    requires
        no_newline(line),
    ensures
        split_lines(line + seq!['\n'] + rest) == seq![line] + split_lines(rest),
    decreases line.len(),
{
    let t = line + seq!['\n'] + rest;
    if line.len() == 0 {
        assert(t[0] == '\n');
        assert(t.drop_first() =~= rest);
        assert(line =~= Seq::<char>::empty());
        assert(split_lines(t) == seq![Seq::<char>::empty()] + split_lines(rest));
        assert(seq![line] + split_lines(rest) =~= split_lines(t));
    } else {
        assert(t[0] == line[0]);
        assert(t[0] != '\n');
        lemma_split_prepend_line(line.drop_first(), rest);
        assert(t.drop_first() =~= line.drop_first() + seq!['\n'] + rest);
        let r = split_lines(t.drop_first());
        assert(r == seq![line.drop_first()] + split_lines(rest));
        assert(r.len() > 0);
        assert(r[0] == line.drop_first());
        assert(seq![t[0]] + r[0] =~= line);
        assert(r.drop_first() =~= split_lines(rest));
        assert(split_lines(t) =~= seq![line] + split_lines(rest));
    }
}

/// Splitting the written form of a store gives exactly its lines.
proof fn lemma_split_serialize(entries: Seq<EntryV>)
    ensures
        split_lines(spec_serialize(entries)) == flat_lines(entries),
    decreases entries.len(),
{
    if entries.len() == 0 {
        assert(split_lines(spec_serialize(entries)) =~= flat_lines(entries));
    } else {
        let e = entries[0];
        let rest = entries.drop_first();
        lemma_split_serialize(rest);
        lemma_lines_no_newline(e);
        let h = header_line(e);
        let n = name_line(e);
        let m = email_line(e);
        let t3 = spec_serialize(rest);
        let t2 = m + seq!['\n'] + t3;
        let t1 = n + seq!['\n'] + t2;
        let t0 = h + seq!['\n'] + t1;
        assert(spec_serialize(entries) =~= t0);
        lemma_split_prepend_line(h, t1);
        lemma_split_prepend_line(n, t2);
        lemma_split_prepend_line(m, t3);
        assert(split_lines(t0) == seq![h] + (seq![n] + (seq![m] + split_lines(t3))));
        assert(split_lines(spec_serialize(entries)) =~= flat_lines(entries));
    }
}

/// Reading written lines, from any clean state, appends exactly the written
/// profiles, provided no key appears twice over all of them.
proof fn lemma_run_flat(d: Seq<EntryV>, entries: Seq<EntryV>)
    requires
        unique_keys(d + entries),
    ensures
        close_cur(
            run_lines((ParseState { done: d, cur: None, failed: false }), flat_lines(entries)),
        ) == (ParseState { done: d + entries, cur: None, failed: false }),
    decreases entries.len(),
{
    let st0 = ParseState { done: d, cur: None, failed: false };
    if entries.len() == 0 {
        assert(flat_lines(entries) =~= Seq::<Seq<char>>::empty());
        assert(run_lines(st0, flat_lines(entries)) == st0);
        assert(d + entries =~= d);
        assert(close_cur(st0) == st0);
    } else {
        let e = entries[0];
        let rest = entries.drop_first();
        let lines = flat_lines(entries);
        let h = header_line(e);
        let nl = name_line(e);
        let ml = email_line(e);
        lemma_field_keys();
        lemma_classify_header(e.key);
        lemma_classify_field(name_key(), e.profile.name);
        lemma_classify_field(email_key(), e.profile.email);
        assert(classify_line(h) == LineKind::Header(e.key));
        assert(classify_line(nl) == LineKind::Field(name_key(), e.profile.name));
        assert(classify_line(ml) == LineKind::Field(email_key(), e.profile.email));
        let l1 = lines.drop_first();
        let l2 = l1.drop_first();
        let l3 = l2.drop_first();
        assert(lines[0] == h);
        assert(l1[0] == nl);
        assert(l2[0] == ml);
        assert(l3 =~= flat_lines(rest));
        let st1 = step_line(st0, h);
        assert(st1 == ParseState {
            done: d,
            cur: Some(PartialEntry { key: e.key, name: None, email: None }),
            failed: false,
        });
        let st2 = step_line(st1, nl);
        assert(st2 == ParseState {
            done: d,
            cur: Some(PartialEntry { key: e.key, name: Some(e.profile.name), email: None }),
            failed: false,
        });
        let st3 = step_line(st2, ml);
        assert(st3 == ParseState {
            done: d,
            cur: Some(
                PartialEntry {
                    key: e.key,
                    name: Some(e.profile.name),
                    email: Some(e.profile.email),
                },
            ),
            failed: false,
        });
        assert(run_lines(st0, lines) == run_lines(st1, l1));
        assert(run_lines(st1, l1) == run_lines(st2, l2));
        assert(run_lines(st2, l2) == run_lines(st3, l3));
        assert(run_lines(st3, l3) == run_lines(st3, flat_lines(rest)));
        assert(!contains_key(d, e.key)) by {
            if contains_key(d, e.key) {
                let i = choose|i: int| 0 <= i < d.len() && d[i].key == e.key;
                assert((d + entries)[i].key == e.key);
                assert((d + entries)[d.len() as int].key == e.key);
            }
        }
        let pushed = EntryV {
            key: e.key,
            profile: ProfileV { name: e.profile.name, email: e.profile.email },
        };
        assert(pushed =~= e);
        let st4 = ParseState { done: d.push(e), cur: None, failed: false };
        assert(close_cur(st3) == st4);
        assert(d.push(e) + rest =~= d + entries);
        if rest.len() == 0 {
            assert(flat_lines(rest) =~= Seq::<Seq<char>>::empty());
            assert(run_lines(st3, flat_lines(rest)) == st3);
            assert(d.push(e) =~= d + entries);
        } else {
            let f0 = flat_lines(rest)[0];
            assert(f0 == header_line(rest[0]));
            lemma_classify_header(rest[0].key);
            assert(classify_line(f0) == LineKind::Header(rest[0].key));
            assert(step_line(st3, f0) == step_line(st4, f0));
            assert(run_lines(st3, flat_lines(rest)) == run_lines(
                step_line(st3, f0),
                flat_lines(rest).drop_first(),
            ));
            assert(run_lines(st4, flat_lines(rest)) == run_lines(
                step_line(st4, f0),
                flat_lines(rest).drop_first(),
            ));
            lemma_run_flat(d.push(e), rest);
            assert(close_cur(run_lines(st4, flat_lines(rest))) == ParseState {
                done: d.push(e) + rest,
                cur: None,
                failed: false,
            });
        }
    }
}

/// The round trip: reading the written form of any store with unique keys
/// gives back exactly that store.
pub proof fn lemma_store_round_trip(entries: Seq<EntryV>)
    requires
        unique_keys(entries),
    ensures
        spec_load(spec_serialize(entries)) == Some(entries),
{
    lemma_split_serialize(entries);
    assert(Seq::<EntryV>::empty() + entries =~= entries);
    lemma_run_flat(Seq::empty(), entries);
}

// ---------------------------------------------------------------------------
// Lemmas serving the executable code
// ---------------------------------------------------------------------------

/// Writing one more character of quoted text appends its written form.
proof fn lemma_escape_snoc(a: Seq<char>, c: char)
    ensures
        escape_seq(a.push(c)) == escape_seq(a) + esc_char(c),
    decreases a.len(),
{
    if a.len() == 0 {
        let s1 = a.push(c);
        assert(s1.len() == 1);
        assert(s1[0] == c);
        assert(s1.drop_first() =~= Seq::<char>::empty());
        assert(escape_seq(s1) == esc_char(c) + escape_seq(s1.drop_first()));
        assert(escape_seq(Seq::<char>::empty()) == Seq::<char>::empty());
        assert(escape_seq(a) == Seq::<char>::empty());
        assert(escape_seq(s1) =~= escape_seq(a) + esc_char(c));
    } else {
        lemma_escape_snoc(a.drop_first(), c);
        assert(a.push(c)[0] == a[0]);
        assert(a.push(c).drop_first() =~= a.drop_first().push(c));
        assert(escape_seq(a.push(c)) =~= escape_seq(a) + esc_char(c));
    }
}

/// Writing one more profile appends its written form.
proof fn lemma_serialize_snoc(a: Seq<EntryV>, e: EntryV)
    ensures
        spec_serialize(a.push(e)) == spec_serialize(a) + render_entry(e),
    decreases a.len(),
{
    if a.len() == 0 {
        let s1 = a.push(e);
        assert(s1.len() == 1);
        assert(s1[0] == e);
        assert(s1.drop_first() =~= Seq::<EntryV>::empty());
        assert(spec_serialize(s1) == render_entry(e) + spec_serialize(s1.drop_first()));
        assert(spec_serialize(Seq::<EntryV>::empty()) == Seq::<char>::empty());
        assert(spec_serialize(a) == Seq::<char>::empty());
        assert(spec_serialize(s1) =~= spec_serialize(a) + render_entry(e));
    } else {
        lemma_serialize_snoc(a.drop_first(), e);
        assert(a.push(e)[0] == a[0]);
        assert(a.push(e).drop_first() =~= a.drop_first().push(e));
        assert(spec_serialize(a.push(e)) =~= spec_serialize(a) + render_entry(e));
    }
}

/// Reading lines one batch after the other reads them all.
proof fn lemma_run_append(st: ParseState, l1: Seq<Seq<char>>, l2: Seq<Seq<char>>)
    ensures
        run_lines(st, l1 + l2) == run_lines(run_lines(st, l1), l2),
    decreases l1.len(),
{
    if l1.len() == 0 {
        assert(l1 + l2 =~= l2);
    } else {
        lemma_run_append(step_line(st, l1[0]), l1.drop_first(), l2);
        assert((l1 + l2)[0] == l1[0]);
        assert((l1 + l2).drop_first() =~= l1.drop_first() + l2);
    }
}

/// Corruption, once seen, is never forgotten.
proof fn lemma_run_failed(st: ParseState, lines: Seq<Seq<char>>)
    requires
        st.failed,
    ensures
        run_lines(st, lines).failed,
    decreases lines.len(),
{
    if lines.len() > 0 {
        lemma_run_failed(step_line(st, lines[0]), lines.drop_first());
    }
}

// ---------------------------------------------------------------------------
// Executable writing
// ---------------------------------------------------------------------------

/// Relies on `String::push` of std: it appends exactly the one character to
/// the string.
pub assume_specification[ String::push ](s: &mut String, c: char)
    ensures
        final(s)@ == old(s)@.push(c),
;

/// Appends the written (escaped) form of `s` to `out`.
fn push_escaped(out: &mut String, s: &str)
    ensures
        final(out)@ == old(out)@ + escape_seq(s@),
{
    let n = s.unicode_len();
    let mut i: usize = 0;
    proof {
        assert(s@.take(0) =~= Seq::<char>::empty());
        assert(out@ =~= old(out)@ + escape_seq(s@.take(0)));
    }
    while i < n
        invariant
            n == s@.len(),
            i <= n,
            out@ == old(out)@ + escape_seq(s@.take(i as int)),
        decreases n - i,
    {
        let c = s.get_char(i);
        if c == '"' || c == '\\' {
            out.push('\\');
            out.push(c);
        } else if c == '\n' {
            out.push('\\');
            out.push('n');
        } else if c == '\r' {
            out.push('\\');
            out.push('r');
        } else {
            out.push(c);
        }
        proof {
            lemma_escape_snoc(s@.take(i as int), c);
            assert(s@.take(i + 1) =~= s@.take(i as int).push(c));
            assert(out@ =~= old(out)@ + escape_seq(s@.take(i + 1)));
        }
        i = i + 1;
    }
    proof {
        assert(s@.take(n as int) =~= s@);
    }
}

/// Whether `k` can be written as a bare key.
fn is_bare_str(k: &str) -> (r: bool)
    ensures
        r == is_bare_key(k@),
{
    let n = k.unicode_len();
    if n == 0 {
        return false;
    }
    let mut i: usize = 0;
    while i < n
        invariant
            n == k@.len(),
            i <= n,
            forall|j: int| 0 <= j < i ==> is_bare_char(k@[j]),
        decreases n - i,
    {
        let c = k.get_char(i);
        let u = c as u32;
        let ok = (97 <= u && u <= 122) || (65 <= u && u <= 90) || (48 <= u && u <= 57) || u == 45
            || u == 95;
        if !ok {
            return false;
        }
        i = i + 1;
    }
    true
}

/// Appends the written form of the key `k` to `out`.
fn push_key(out: &mut String, k: &str)
    ensures
        final(out)@ == old(out)@ + render_key(k@),
{
    if is_bare_str(k) {
        out.append(k);
    } else {
        out.push('"');
        push_escaped(out, k);
        out.push('"');
        proof {
            assert(out@ =~= old(out)@ + (seq!['"'] + escape_seq(k@) + seq!['"']));
        }
    }
}

/// Writes the store: one table per profile, in order.
pub fn serialize(store: &Store) -> (r: String)
    ensures
        r@ == spec_serialize(store@),
{
    let mut out = String::new();
    let n = store.len();
    let mut i: usize = 0;
    proof {
        assert(store@.take(0) =~= Seq::<EntryV>::empty());
        assert(out@ =~= spec_serialize(store@.take(0)));
    }
    while i < n
        invariant
            n == store@.len(),
            i <= n,
            out@ == spec_serialize(store@.take(i as int)),
        decreases n - i,
    {
        let ghost before = out@;
        let key = store.key_at(i);
        let profile = store.profile_at(i);
        out.push('[');
        push_key(&mut out, key.as_str());
        out.push(']');
        out.push('\n');
        out.append("name = \"");
        push_escaped(&mut out, profile.name.as_str());
        out.push('"');
        out.push('\n');
        out.append("email = \"");
        push_escaped(&mut out, profile.email.as_str());
        out.push('"');
        out.push('\n');
        proof {
            reveal_strlit("name = \"");
            reveal_strlit("email = \"");
            let e = store@[i as int];
            assert("name = \""@ =~= name_key() + seq![' ', '=', ' ', '"']);
            assert("email = \""@ =~= email_key() + seq![' ', '=', ' ', '"']);
            assert(out@ =~= before + render_entry(e));
            lemma_serialize_snoc(store@.take(i as int), e);
            assert(store@.take(i + 1) =~= store@.take(i as int).push(e));
            assert(out@ =~= spec_serialize(store@.take(i + 1)));
        }
        i = i + 1;
    }
    proof {
        assert(store@.take(n as int) =~= store@);
    }
    out
}

// ---------------------------------------------------------------------------
// Executable reading
// ---------------------------------------------------------------------------

/// The corruption signal: the text is not a well-formed store file.
#[derive(Debug)]
pub struct LoadError;

/// Whether one character may stand in a bare key.
fn is_bare_char_exec(c: char) -> (r: bool)
    ensures
        r == is_bare_char(c),
{
    let u = c as u32;
    (97 <= u && u <= 122) || (65 <= u && u <= 90) || (48 <= u && u <= 57) || u == 45 || u == 95
}

/// The lines of `text`, as values.
fn split_into_lines(text: &str) -> (r: Vec<String>)
    ensures
        r@.map_values(|l: String| l@) == split_lines(text@),
{
    let n = text.unicode_len();
    let mut lines: Vec<String> = Vec::new();
    let mut cur = String::new();
    let mut i: usize = 0;
    proof {
        assert(text@.skip(0) =~= text@);
        let lls = split_lines(text@);
        if lls.len() == 0 {
            assert(prepend_first(cur@, lls) =~= lls);
        } else {
            assert(cur@ + lls[0] =~= lls[0]);
            assert(prepend_first(cur@, lls) =~= lls);
        }
        assert(lines@.map_values(|l: String| l@) =~= Seq::<Seq<char>>::empty());
    }
    while i < n
        invariant
            n == text@.len(),
            i <= n,
            split_lines(text@) == lines@.map_values(|l: String| l@) + prepend_first(
                cur@,
                split_lines(text@.skip(i as int)),
            ),
        decreases n - i,
    {
        let c = text.get_char(i);
        let ghost tail = split_lines(text@.skip(i + 1));
        proof {
            assert(text@.skip(i as int)[0] == text@[i as int]);
            assert(text@.skip(i as int).drop_first() =~= text@.skip(i + 1));
        }
        if c == '\n' {
            let ghost lines_old = lines@;
            let ghost cur_old = cur@;
            lines.push(cur);
            cur = String::new();
            proof {
                assert(split_lines(text@.skip(i as int)) == seq![Seq::<char>::empty()] + tail);
                assert(prepend_first(cur_old, seq![Seq::<char>::empty()] + tail) =~= seq![cur_old]
                    + tail);
                assert(lines@.map_values(|l: String| l@) =~= lines_old.map_values(
                    |l: String| l@,
                ).push(cur_old));
                if tail.len() == 0 {
                    assert(prepend_first(cur@, tail) =~= Seq::<Seq<char>>::empty());
                } else {
                    assert(cur@ + tail[0] =~= tail[0]);
                    assert(prepend_first(cur@, tail) =~= tail);
                }
                assert(split_lines(text@) =~= lines@.map_values(|l: String| l@) + prepend_first(
                    cur@,
                    tail,
                ));
            }
        } else {
            let ghost cur_old = cur@;
            cur.push(c);
            proof {
                if tail.len() == 0 {
                    assert(split_lines(text@.skip(i as int)) == seq![seq![text@[i as int]]]);
                    assert(cur_old + seq![c] =~= cur_old.push(c));
                    assert(prepend_first(cur_old, seq![seq![text@[i as int]]]) =~= seq![
                        cur_old.push(c),
                    ]);
                    assert(prepend_first(cur@, tail) =~= seq![cur@]);
                    assert(seq![cur_old.push(c)] =~= seq![cur@]);
                } else {
                    assert(split_lines(text@.skip(i as int)) == seq![seq![text@[i as int]] + tail[0]]
                        + tail.drop_first());
                    assert(cur_old + (seq![c] + tail[0]) =~= cur@ + tail[0]);
                    assert(prepend_first(cur_old, split_lines(text@.skip(i as int))) =~= seq![
                        cur@ + tail[0],
                    ] + tail.drop_first());
                    assert(prepend_first(cur@, tail) =~= seq![cur@ + tail[0]] + tail.drop_first());
                }
                assert(split_lines(text@) =~= lines@.map_values(|l: String| l@) + prepend_first(
                    cur@,
                    tail,
                ));
            }
        }
        i = i + 1;
    }
    proof {
        assert(text@.skip(n as int) =~= Seq::<char>::empty());
    }
    if !cur.as_str().is_empty() {
        let ghost lines_old = lines@;
        let ghost cur_old = cur@;
        lines.push(cur);
        proof {
            assert(prepend_first(cur_old, Seq::<Seq<char>>::empty()) =~= seq![cur_old]);
            assert(lines@.map_values(|l: String| l@) =~= lines_old.map_values(|l: String| l@).push(
                cur_old,
            ));
            assert(split_lines(text@) =~= lines@.map_values(|l: String| l@));
        }
    } else {
        proof {
            assert(prepend_first(cur@, Seq::<Seq<char>>::empty()) =~= Seq::<Seq<char>>::empty());
            assert(split_lines(text@) =~= lines@.map_values(|l: String| l@));
        }
    }
    lines
}

/// A line's first segment, split off before splitting the rest.
spec fn prepend_first(p: Seq<char>, lls: Seq<Seq<char>>) -> Seq<Seq<char>> {
    if lls.len() == 0 {
        if p.len() == 0 {
            Seq::empty()
        } else {
            seq![p]
        }
    } else {
        seq![p + lls[0]] + lls.drop_first()
    }
}

/// Reads quoted text of `line` from `start` (just after the opening quote):
/// the value and the position after the closing quote.
fn parse_quoted_str(line: &str, start: usize) -> (r: Option<(String, usize)>)
    requires
        start <= line@.len(),
    ensures
        (match r {
            Some(p) => p.1 <= line@.len() && parse_quoted(line@.skip(start as int)) == Some(
                (p.0@, line@.skip(p.1 as int)),
            ),
            None => parse_quoted(line@.skip(start as int)) is None,
        }),
{
    let n = line.unicode_len();
    let mut pos = start;
    let mut acc = String::new();
    while pos < n
        invariant
            start <= pos <= n,
            n == line@.len(),
            (match parse_quoted(line@.skip(pos as int)) {
                Some(p) => parse_quoted(line@.skip(start as int)) == Some((acc@ + p.0, p.1)),
                None => parse_quoted(line@.skip(start as int)) is None,
            }),
        decreases n - pos,
    {
        let c = line.get_char(pos);
        proof {
            assert(line@.skip(pos as int)[0] == line@[pos as int]);
            assert(line@.skip(pos as int).drop_first() =~= line@.skip(pos + 1));
        }
        if c == '"' {
            proof {
                assert(parse_quoted(line@.skip(pos as int)) == Some(
                    (Seq::<char>::empty(), line@.skip(pos + 1)),
                ));
                assert(acc@ + Seq::<char>::empty() =~= acc@);
            }
            return Some((acc, pos + 1));
        } else if c == '\\' {
            if pos + 1 == n {
                proof {
                    assert(line@.skip(pos as int).len() < 2);
                }
                return None;
            }
            let c2 = line.get_char(pos + 1);
            proof {
                assert(line@.skip(pos as int)[1] == line@[pos as int + 1]);
            }
            let dec: Option<char> = if c2 == '"' {
                Some('"')
            } else if c2 == '\\' {
                Some('\\')
            } else if c2 == 'n' {
                Some('\n')
            } else if c2 == 'r' {
                Some('\r')
            } else {
                None
            };
            match dec {
                None => {
                    proof {
                        assert(parse_quoted(line@.skip(pos as int)) is None);
                    }
                    return None;
                },
                Some(d) => {
                    let ghost acc_old = acc@;
                    acc.push(d);
                    proof {
                        assert(line@.skip(pos as int).skip(2) =~= line@.skip(pos + 2));
                        match parse_quoted(line@.skip(pos + 2)) {
                            Some(p) => {
                                assert(parse_quoted(line@.skip(pos as int)) == Some(
                                    (seq![d] + p.0, p.1),
                                ));
                                assert(acc_old + (seq![d] + p.0) =~= acc@ + p.0);
                            },
                            None => {
                                assert(parse_quoted(line@.skip(pos as int)) is None);
                            },
                        }
                    }
                    pos = pos + 2;
                },
            }
        } else if c == '\n' || c == '\r' {
            proof {
                assert(parse_quoted(line@.skip(pos as int)) is None);
            }
            return None;
        } else {
            let ghost acc_old = acc@;
            acc.push(c);
            proof {
                match parse_quoted(line@.skip(pos + 1)) {
                    Some(p) => {
                        assert(parse_quoted(line@.skip(pos as int)) == Some((seq![c] + p.0, p.1)));
                        assert(acc_old + (seq![c] + p.0) =~= acc@ + p.0);
                    },
                    None => {
                        assert(parse_quoted(line@.skip(pos as int)) is None);
                    },
                }
            }
            pos = pos + 1;
        }
    }
    proof {
        assert(line@.skip(n as int).len() == 0);
    }
    None
}

/// The end of the bare-character run of `line` that begins at `start`.
fn bare_scan(line: &str, start: usize) -> (r: usize)
    requires
        start <= line@.len(),
    ensures
        start <= r <= line@.len(),
        bare_len(line@.skip(start as int)) == r - start,
{
    let n = line.unicode_len();
    let mut p = start;
    while p < n
        invariant
            start <= p <= n,
            n == line@.len(),
            bare_len(line@.skip(start as int)) == (p - start) + bare_len(line@.skip(p as int)),
        decreases n - p,
    {
        let c = line.get_char(p);
        proof {
            assert(line@.skip(p as int)[0] == line@[p as int]);
            assert(line@.skip(p as int).drop_first() =~= line@.skip(p + 1));
        }
        if !is_bare_char_exec(c) {
            return p;
        }
        p = p + 1;
    }
    proof {
        assert(line@.skip(n as int).len() == 0);
    }
    p
}

/// Reads a key of `line` from `start`: the key and the position after it.
fn parse_key_str(line: &str, start: usize) -> (r: Option<(String, usize)>)
    requires
        start <= line@.len(),
    ensures
        (match r {
            Some(p) => p.1 <= line@.len() && parse_key(line@.skip(start as int)) == Some(
                (p.0@, line@.skip(p.1 as int)),
            ),
            None => parse_key(line@.skip(start as int)) is None,
        }),
{
    let n = line.unicode_len();
    if start < n && line.get_char(start) == '"' {
        proof {
            assert(line@.skip(start as int)[0] == line@[start as int]);
            assert(line@.skip(start as int).drop_first() =~= line@.skip(start + 1));
        }
        parse_quoted_str(line, start + 1)
    } else {
        let e = bare_scan(line, start);
        if e == start {
            None
        } else {
            let k = line.substring_char(start, e);
            proof {
                assert(line@.skip(start as int).take((e - start) as int) =~= line@.subrange(
                    start as int,
                    e as int,
                ));
                assert(line@.skip(start as int).skip((e - start) as int) =~= line@.skip(e as int));
            }
            Some((String::from_str(k), e))
        }
    }
}

/// What one line of the file says, as values.
pub enum LineItem {
    /// An empty line.
    Blank,
    /// `[key]`.
    Header(String),
    /// `key = "value"`.
    Field(String, String),
    /// Anything else: corruption.
    Bad,
}

/// Reads one line.
fn classify(line: &str) -> (r: LineItem)
    ensures
        (match r {
            LineItem::Blank => classify_line(line@) == LineKind::Blank,
            LineItem::Header(k) => classify_line(line@) == LineKind::Header(k@),
            LineItem::Field(k, v) => classify_line(line@) == LineKind::Field(k@, v@),
            LineItem::Bad => classify_line(line@) == LineKind::Bad,
        }),
{
    let n = line.unicode_len();
    if n == 0 {
        return LineItem::Blank;
    }
    if line.get_char(0) == '[' {
        proof {
            assert(line@.drop_first() =~= line@.skip(1));
        }
        match parse_key_str(line, 1) {
            None => LineItem::Bad,
            Some((k, p)) => {
                if p < n && p + 1 == n && line.get_char(p) == ']' {
                    proof {
                        assert(line@.skip(p as int) =~= seq![']']);
                    }
                    LineItem::Header(k)
                } else {
                    proof {
                        let rest = line@.skip(p as int);
                        assert(rest.len() == n - p);
                        if p < n {
                            assert(rest[0] == line@[p as int]);
                        }
                        assert(rest != seq![']']);
                    }
                    LineItem::Bad
                }
            },
        }
    } else {
        proof {
            assert(line@.skip(0) =~= line@);
        }
        match parse_key_str(line, 0) {
            None => LineItem::Bad,
            Some((k, p)) => {
                let rest_ok = n >= 4 && p <= n - 4 && line.get_char(p) == ' ' && line.get_char(
                    p + 1,
                ) == '=' && line.get_char(p + 2) == ' ' && line.get_char(p + 3) == '"';
                proof {
                    let rest = line@.skip(p as int);
                    assert(rest.len() == n - p);
                    if p + 4 <= n {
                        assert(rest[0] == line@[p as int]);
                        assert(rest[1] == line@[p as int + 1]);
                        assert(rest[2] == line@[p as int + 2]);
                        assert(rest[3] == line@[p as int + 3]);
                    }
                }
                if !rest_ok {
                    return LineItem::Bad;
                }
                proof {
                    assert(line@.skip(p as int).skip(4) =~= line@.skip(p + 4));
                }
                match parse_quoted_str(line, p + 4) {
                    None => LineItem::Bad,
                    Some((v, q)) => {
                        if q == n {
                            proof {
                                assert(line@.skip(q as int).len() == 0);
                            }
                            LineItem::Field(k, v)
                        } else {
                            proof {
                                assert(line@.skip(q as int).len() > 0);
                            }
                            LineItem::Bad
                        }
                    },
                }
            },
        }
    }
}

/// A table being read: its key and the fields seen so far.
struct CurTable {
    key: String,
    name: Option<String>,
    email: Option<String>,
}

/// The value of a table being read.
spec fn cur_view(c: Option<CurTable>) -> Option<PartialEntry> {
    match c {
        None => None,
        Some(t) => Some(
            PartialEntry { key: t.key@, name: opt_view(t.name), email: opt_view(t.email) },
        ),
    }
}

/// Finishes the table being read, mirroring `close_cur`.
fn close_table(store: &mut Store, cur: Option<CurTable>) -> (ok: bool)
    requires
        old(store).wf(),
    ensures
        ({
            let st2 = close_cur(
                ParseState { done: old(store)@, cur: cur_view(cur), failed: false },
            );
            if ok {
                !st2.failed && final(store)@ == st2.done && final(store).wf()
            } else {
                st2.failed && final(store)@ == old(store)@ && final(store).wf()
            }
        }),
{
    match cur {
        None => true,
        Some(t) => {
            match (t.name, t.email) {
                (Some(n), Some(e)) => {
                    if store.contains(t.key.as_str()) {
                        false
                    } else {
                        store.push_new(t.key, Profile { name: n, email: e });
                        true
                    }
                },
                _ => false,
            }
        },
    }
}

/// The run state after a further line.
proof fn lemma_run_snoc(st: ParseState, l: Seq<Seq<char>>, x: Seq<char>)
    ensures
        run_lines(st, l.push(x)) == step_line(run_lines(st, l), x),
    decreases l.len(),
{
    if l.len() == 0 {
        assert(l.push(x)[0] == x);
        assert(l.push(x).drop_first() =~= Seq::<Seq<char>>::empty());
        assert(run_lines(st, l.push(x)) == run_lines(step_line(st, x), l.push(x).drop_first()));
        assert(run_lines(step_line(st, x), Seq::<Seq<char>>::empty()) == step_line(st, x));
        assert(run_lines(st, l) == st);
    } else {
        lemma_run_snoc(step_line(st, l[0]), l.drop_first(), x);
        assert(l.push(x)[0] == l[0]);
        assert(l.push(x).drop_first() =~= l.drop_first().push(x));
        assert(run_lines(st, l.push(x)) == run_lines(
            step_line(st, l[0]),
            l.push(x).drop_first(),
        ));
        assert(run_lines(st, l) == run_lines(step_line(st, l[0]), l.drop_first()));
    }
}

/// Corruption seen on some line condemns the whole text.
proof fn lemma_fail_at(text: Seq<char>, i: int)
    requires
        0 <= i < split_lines(text).len(),
        run_lines(init_state(), split_lines(text).take(i + 1)).failed,
    ensures
        spec_load(text) is None,
{
    let lv = split_lines(text);
    assert(lv.take(i + 1) + lv.skip(i + 1) =~= lv);
    lemma_run_append(init_state(), lv.take(i + 1), lv.skip(i + 1));
    lemma_run_failed(run_lines(init_state(), lv.take(i + 1)), lv.skip(i + 1));
}

/// Reads a store file: the profiles it holds, in order of appearance, or the
/// corruption signal for exactly the texts outside the store grammar.
pub fn load(text: &str) -> (r: Result<Store, LoadError>)
    ensures
        (match r {
            Ok(store) => spec_load(text@) == Some(store@) && store.wf(),
            Err(_) => spec_load(text@) is None,
        }),
{
    let lines = split_into_lines(text);
    let ghost lviews = lines@.map_values(|l: String| l@);
    let mut store = Store::new();
    let mut cur: Option<CurTable> = None;
    let n = lines.len();
    let mut i: usize = 0;
    proof {
        assert(lviews.take(0) =~= Seq::<Seq<char>>::empty());
    }
    while i < n
        invariant
            n == lines@.len(),
            i <= n,
            lviews == lines@.map_values(|l: String| l@),
            lviews == split_lines(text@),
            store.wf(),
            (run_lines(init_state(), lviews.take(i as int)) == ParseState {
                done: store@,
                cur: cur_view(cur),
                failed: false,
            }),
        decreases n - i,
    {
        let ghost st_pre = run_lines(init_state(), lviews.take(i as int));
        proof {
            lemma_run_snoc(init_state(), lviews.take(i as int), lviews[i as int]);
            assert(lviews.take(i + 1) =~= lviews.take(i as int).push(lviews[i as int]));
        }
        let line = &lines[i];
        proof {
            assert(line@ == lviews[i as int]);
        }
        let item = classify(line.as_str());
        match item {
            LineItem::Blank => {},
            LineItem::Bad => {
                proof {
                    lemma_fail_at(text@, i as int);
                }
                return Err(LoadError);
            },
            LineItem::Header(k) => {
                let prev = cur;
                cur = None;
                let ok = close_table(&mut store, prev);
                if !ok {
                    proof {
                        lemma_fail_at(text@, i as int);
                    }
                    return Err(LoadError);
                }
                cur = Some(CurTable { key: k, name: None, email: None });
            },
            LineItem::Field(k, v) => {
                let prev = cur;
                cur = None;
                proof {
                    reveal_strlit("name");
                    reveal_strlit("email");
                    assert("name"@ =~= name_key());
                    assert("email"@ =~= email_key());
                }
                match prev {
                    None => {
                        proof {
                            lemma_fail_at(text@, i as int);
                        }
                        return Err(LoadError);
                    },
                    Some(t) => {
                        if str_eq(k.as_str(), "name") {
                            if t.name.is_some() {
                                proof {
                                    lemma_fail_at(text@, i as int);
                                }
                                return Err(LoadError);
                            }
                            cur = Some(CurTable { key: t.key, name: Some(v), email: t.email });
                        } else if str_eq(k.as_str(), "email") {
                            if t.email.is_some() {
                                proof {
                                    lemma_fail_at(text@, i as int);
                                }
                                return Err(LoadError);
                            }
                            cur = Some(CurTable { key: t.key, name: t.name, email: Some(v) });
                        } else {
                            cur = Some(t);
                        }
                    },
                }
            },
        }
        i = i + 1;
    }
    proof {
        assert(lviews.take(n as int) =~= lviews);
    }
    let prev = cur;
    let ok = close_table(&mut store, prev);
    if !ok {
        return Err(LoadError);
    }
    Ok(store)
}

} // verus!
