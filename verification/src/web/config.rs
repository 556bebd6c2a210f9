//! Secret masking for the panel's raw-config editor.
//!
//! The raw editor returns the on-disk INI file with every value of a `password_hash`,
//! `password_enc` or `password` key, in any section, replaced by `<unchanged>`; on save, a
//! value still reading `<unchanged>` is replaced by the value the same `(section, key)` holds
//! on disk. Everything else (comments, ordering, spacing, line endings) passes through.

use crate::text::{chars_of, string_from_chars};
use vstd::prelude::*;

verus! {

// ---------------------------------------------------------------------------------------
// Characters and trimming
// ---------------------------------------------------------------------------------------

/// Unicode `White_Space`, which `str::trim` and friends strip.
pub open spec fn is_ws(c: char) -> bool {
    let u = c as u32;
    (9 <= u <= 13) || u == 0x20 || u == 0x85 || u == 0xA0 || u == 0x1680 || (0x2000 <= u
        <= 0x200A) || u == 0x2028 || u == 0x2029 || u == 0x202F || u == 0x205F || u == 0x3000
}

/// A line-ending character.
pub open spec fn is_eol(c: char) -> bool {
    c == '\r' || c == '\n'
}

/// The index of the first non-whitespace character of `s` at or after `j` (`s.len()` when
/// there is none).
pub open spec fn ws_skip_from(s: Seq<char>, j: int) -> int
    decreases s.len() - j,
{
    if 0 <= j < s.len() && is_ws(s[j]) {
        ws_skip_from(s, j + 1)
    } else {
        j
    }
}

/// How many whitespace characters `s` starts with.
pub open spec fn ws_prefix_len(s: Seq<char>) -> nat {
    ws_skip_from(s, 0) as nat
}

/// Where `s.subrange(0, e)` ends once its trailing characters satisfying `is_ws` (when
/// `ws`) or `is_eol` (otherwise) are dropped.
pub open spec fn kept_from(s: Seq<char>, e: int, ws: bool) -> int
    decreases e,
{
    if 0 < e <= s.len() && (if ws {
        is_ws(s[e - 1])
    } else {
        is_eol(s[e - 1])
    }) {
        kept_from(s, e - 1, ws)
    } else {
        e
    }
}

/// The length of `s` without its trailing whitespace.
pub open spec fn ws_kept_len(s: Seq<char>) -> nat {
    kept_from(s, s.len() as int, true) as nat
}

/// The length of `s` without its trailing `\r`/`\n` characters.
pub open spec fn eol_kept_len(s: Seq<char>) -> nat {
    kept_from(s, s.len() as int, false) as nat
}

/// `str::trim_start`.
pub open spec fn trim_start(s: Seq<char>) -> Seq<char> {
    s.subrange(ws_prefix_len(s) as int, s.len() as int)
}

/// `str::trim_end`.
pub open spec fn trim_end(s: Seq<char>) -> Seq<char> {
    s.subrange(0, ws_kept_len(s) as int)
}

/// `str::trim`.
pub open spec fn trim(s: Seq<char>) -> Seq<char> {
    trim_end(trim_start(s))
}

/// A line without its line ending (`trim_end_matches(['\r', '\n'])`).
pub open spec fn line_body(line: Seq<char>) -> Seq<char> {
    line.subrange(0, eol_kept_len(line) as int)
}

/// The line ending that follows the body.
pub open spec fn line_eol(line: Seq<char>) -> Seq<char> {
    line.subrange(eol_kept_len(line) as int, line.len() as int)
}

/// The leading whitespace of a line.
pub open spec fn indent_of(body: Seq<char>) -> Seq<char> {
    body.subrange(0, ws_prefix_len(body) as int)
}

/// Index of the first `c` in `s` at or after `j`.
pub open spec fn index_of_from(s: Seq<char>, c: char, j: int) -> Option<nat>
    decreases s.len() - j,
{
    if j < 0 || j >= s.len() {
        None
    } else if s[j] == c {
        Some(j as nat)
    } else {
        index_of_from(s, c, j + 1)
    }
}

/// Index of the first `c` in `s`.
pub open spec fn first_index_of(s: Seq<char>, c: char) -> Option<nat> {
    index_of_from(s, c, 0)
}

// ---------------------------------------------------------------------------------------
// INI assignments and secret keys
// ---------------------------------------------------------------------------------------

/// `(key, value)` when the line is a `key = value` assignment: not a comment (`#`, `;`) or a
/// section header (`[`) once leading whitespace is skipped, split at the first `=`, both
/// sides trimmed.
pub open spec fn ini_kv_spec(line: Seq<char>) -> Option<(Seq<char>, Seq<char>)> {
    let t = trim_start(line);
    if t.len() > 0 && (t[0] == '#' || t[0] == ';' || t[0] == '[') {
        None
    } else {
        match first_index_of(t, '=') {
            Some(i) => Some(
                (trim(t.subrange(0, i as int)), trim(t.subrange(i as int + 1, t.len() as int))),
            ),
            None => None,
        }
    }
}

/// `password_hash`.
pub open spec fn key_password_hash() -> Seq<char> {
    seq!['p', 'a', 's', 's', 'w', 'o', 'r', 'd', '_', 'h', 'a', 's', 'h']
}

/// `password_enc`.
pub open spec fn key_password_enc() -> Seq<char> {
    seq!['p', 'a', 's', 's', 'w', 'o', 'r', 'd', '_', 'e', 'n', 'c']
}

/// `password`.
pub open spec fn key_password() -> Seq<char> {
    seq!['p', 'a', 's', 's', 'w', 'o', 'r', 'd']
}

/// A key whose value must never leave the server, in any section.
pub open spec fn is_secret_key(k: Seq<char>) -> bool {
    k == key_password_hash() || k == key_password_enc() || k == key_password()
}

/// The placeholder shown in place of a secret: `<unchanged>`.
pub open spec fn mask_chars() -> Seq<char> {
    seq!['<', 'u', 'n', 'c', 'h', 'a', 'n', 'g', 'e', 'd', '>']
}

/// `" = "`.
pub open spec fn assign_sep() -> Seq<char> {
    seq![' ', '=', ' ']
}

/// The line `indent ‖ key ‖ " = " ‖ value ‖ eol`.
pub open spec fn assign_line(indent: Seq<char>, k: Seq<char>, v: Seq<char>, eol: Seq<char>) -> Seq<
    char,
> {
    indent + k + assign_sep() + v + eol
}

/// A trimmed line that opens a section.
pub open spec fn is_section_header(t: Seq<char>) -> bool {
    t.len() > 0 && t[0] == '['
}

// ---------------------------------------------------------------------------------------
// Lines
// ---------------------------------------------------------------------------------------

/// `split_inclusive('\n')` of the rest `s`, with `cur` already read of the current line.
pub open spec fn split_from(s: Seq<char>, cur: Seq<char>) -> Seq<Seq<char>>
    decreases s.len(),
{
    if s.len() == 0 {
        if cur.len() == 0 {
            seq![]
        } else {
            seq![cur]
        }
    } else if s[0] == '\n' {
        seq![cur.push('\n')] + split_from(s.drop_first(), seq![])
    } else {
        split_from(s.drop_first(), cur.push(s[0]))
    }
}

/// `str::split_inclusive('\n')`: the lines, each with its `\n` (the last one may lack it).
pub open spec fn split_lines(s: Seq<char>) -> Seq<Seq<char>> {
    split_from(s, seq![])
}

/// The lines laid end to end.
pub open spec fn concat_all(ls: Seq<Seq<char>>) -> Seq<char>
    decreases ls.len(),
{
    if ls.len() == 0 {
        seq![]
    } else {
        ls[0] + concat_all(ls.drop_first())
    }
}

/// What `str::lines` yields for one line of `split_lines`: without its `\n`, then without one
/// `\r`.
pub open spec fn lines_item(line: Seq<char>) -> Seq<char> {
    let a = if line.len() > 0 && line.last() == '\n' {
        line.drop_last()
    } else {
        line
    };
    if a.len() > 0 && a.last() == '\r' {
        a.drop_last()
    } else {
        a
    }
}

// ---------------------------------------------------------------------------------------
// Masking
// ---------------------------------------------------------------------------------------

/// One line of the masked file: a secret assignment with a non-empty value becomes
/// `indent ‖ key ‖ " = " ‖ <unchanged> ‖ eol`; every other line is kept as it is.
pub open spec fn mask_line(line: Seq<char>) -> Seq<char> {
    let body = line_body(line);
    match ini_kv_spec(body) {
        Some((k, v)) => if is_secret_key(k) && v.len() > 0 {
            assign_line(indent_of(body), k, mask_chars(), line_eol(line))
        } else {
            line
        },
        None => line,
    }
}

/// The masked lines laid end to end.
pub open spec fn mask_lines(ls: Seq<Seq<char>>) -> Seq<char>
    decreases ls.len(),
{
    if ls.len() == 0 {
        seq![]
    } else {
        mask_line(ls[0]) + mask_lines(ls.drop_first())
    }
}

/// The masked file.
pub open spec fn mask_spec(raw: Seq<char>) -> Seq<char> {
    mask_lines(split_lines(raw))
}

// ---------------------------------------------------------------------------------------
// Restoring
// ---------------------------------------------------------------------------------------

/// The `(section, key, value)` of every secret assignment of the on-disk lines, in order,
/// `section` being the header line (trimmed) last seen.
pub open spec fn disk_entries(ls: Seq<Seq<char>>, section: Seq<char>) -> Seq<
    (Seq<char>, Seq<char>, Seq<char>),
>
    decreases ls.len(),
{
    if ls.len() == 0 {
        seq![]
    } else {
        let l = lines_item(ls[0]);
        let t = trim(l);
        if is_section_header(t) {
            disk_entries(ls.drop_first(), t)
        } else {
            match ini_kv_spec(l) {
                Some((k, v)) => if is_secret_key(k) {
                    seq![(section, k, v)] + disk_entries(ls.drop_first(), section)
                } else {
                    disk_entries(ls.drop_first(), section)
                },
                None => disk_entries(ls.drop_first(), section),
            }
        }
    }
}

/// The value the last entry for `(section, key)` holds; empty when there is none.
pub open spec fn lookup(entries: Seq<(Seq<char>, Seq<char>, Seq<char>)>, section: Seq<char>, k: Seq<
    char,
>) -> Seq<char>
    decreases entries.len(),
{
    if entries.len() == 0 {
        seq![]
    } else if entries.last().0 == section && entries.last().1 == k {
        entries.last().2
    } else {
        lookup(entries.drop_last(), section, k)
    }
}

/// The secret entries of an on-disk file.
pub open spec fn disk_secrets(on_disk: Seq<char>) -> Seq<(Seq<char>, Seq<char>, Seq<char>)> {
    disk_entries(split_lines(on_disk), seq![])
}

/// The restored incoming lines laid end to end, `section` being the header line (trimmed)
/// last seen: a secret assignment whose value is exactly `<unchanged>` becomes
/// `indent ‖ key ‖ " = " ‖ disk value ‖ eol`; every other line is kept as it is.
pub open spec fn unmask_lines(
    ls: Seq<Seq<char>>,
    section: Seq<char>,
    entries: Seq<(Seq<char>, Seq<char>, Seq<char>)>,
) -> Seq<char>
    decreases ls.len(),
{
    if ls.len() == 0 {
        seq![]
    } else {
        let line = ls[0];
        let body = line_body(line);
        let t = trim(body);
        if is_section_header(t) {
            line + unmask_lines(ls.drop_first(), t, entries)
        } else {
            let out = match ini_kv_spec(body) {
                Some((k, v)) => if is_secret_key(k) && v == mask_chars() {
                    assign_line(indent_of(body), k, lookup(entries, section, k), line_eol(line))
                } else {
                    line
                },
                None => line,
            };
            out + unmask_lines(ls.drop_first(), section, entries)
        }
    }
}

/// The incoming text with every masked secret put back from the on-disk text.
pub open spec fn unmask_spec(incoming: Seq<char>, on_disk: Seq<char>) -> Seq<char> {
    unmask_lines(split_lines(incoming), seq![], disk_secrets(on_disk))
}

// ---------------------------------------------------------------------------------------
// Executable helpers
// ---------------------------------------------------------------------------------------

/// The placeholder shown in place of a secret; sent back unchanged by the editor, it means
/// "keep what is on disk".
pub const RAW_SECRET_MASK: &'static str = "<unchanged>";

fn is_ws_exec(c: char) -> (r: bool)
    ensures
        r == is_ws(c),
{
    let u = c as u32;
    (9 <= u && u <= 13) || u == 0x20 || u == 0x85 || u == 0xA0 || u == 0x1680 || (0x2000 <= u
        && u <= 0x200A) || u == 0x2028 || u == 0x2029 || u == 0x202F || u == 0x205F || u == 0x3000
}

fn append_chars(out: &mut Vec<char>, s: &[char])
    ensures
        final(out)@ == old(out)@ + s@,
{
    let mut i: usize = 0;
    while i < s.len()
        invariant
            i <= s@.len(),
            out@ == old(out)@ + s@.subrange(0, i as int),
        decreases s@.len() - i,
    {
        out.push(s[i]);
        assert(s@.subrange(0, i + 1) == s@.subrange(0, i as int).push(s@[i as int]));
        i = i + 1;
    }
    assert(s@.subrange(0, s@.len() as int) == s@);
}

fn copy_range(s: &[char], a: usize, b: usize) -> (r: Vec<char>)
    requires
        a <= b <= s@.len(),
    ensures
        r@ == s@.subrange(a as int, b as int),
{
    let mut r: Vec<char> = Vec::new();
    let mut i: usize = a;
    while i < b
        invariant
            a <= i <= b,
            b <= s@.len(),
            r@ == s@.subrange(a as int, i as int),
        decreases b - i,
    {
        r.push(s[i]);
        assert(s@.subrange(a as int, i + 1) == s@.subrange(a as int, i as int).push(s@[i as int]));
        i = i + 1;
    }
    r
}

fn chars_eq(a: &[char], b: &[char]) -> (r: bool)
    ensures
        r == (a@ == b@),
{
    if a.len() != b.len() {
        return false;
    }
    let mut i: usize = 0;
    while i < a.len()
        invariant
            i <= a@.len(),
            a@.len() == b@.len(),
            forall|j: int| 0 <= j < i ==> a@[j] == b@[j],
        decreases a@.len() - i,
    {
        if a[i] != b[i] {
            return false;
        }
        i = i + 1;
    }
    assert(a@ =~= b@);
    true
}

fn ws_prefix(s: &[char]) -> (n: usize)
    ensures
        n == ws_prefix_len(s@),
        n <= s@.len(),
{
    let mut j: usize = 0;
    let mut done = false;
    while !done && j < s.len()
        invariant
            j <= s@.len(),
            ws_skip_from(s@, j as int) == ws_skip_from(s@, 0),
            done ==> ws_skip_from(s@, j as int) == j,
        decreases s@.len() - j + (if done {
            0int
        } else {
            1int
        }),
    {
        if is_ws_exec(s[j]) {
            j = j + 1;
        } else {
            done = true;
        }
    }
    j
}

fn kept(s: &[char], ws: bool) -> (e: usize)
    ensures
        e == kept_from(s@, s@.len() as int, ws),
        e <= s@.len(),
{
    let mut e: usize = s.len();
    let mut done = false;
    while !done && e > 0
        invariant
            e <= s@.len(),
            kept_from(s@, e as int, ws) == kept_from(s@, s@.len() as int, ws),
            done ==> kept_from(s@, e as int, ws) == e,
        decreases e + (if done {
            0int
        } else {
            1int
        }),
    {
        let c = s[e - 1];
        let strip = if ws {
            is_ws_exec(c)
        } else {
            c == '\r' || c == '\n'
        };
        if strip {
            e = e - 1;
        } else {
            done = true;
        }
    }
    e
}

fn trim_vec(s: &[char]) -> (r: Vec<char>)
    ensures
        r@ == trim(s@),
{
    let p = ws_prefix(s);
    let t = copy_range(s, p, s.len());
    let e = kept(t.as_slice(), true);
    copy_range(t.as_slice(), 0, e)
}

fn index_of(s: &[char], c: char) -> (r: Option<usize>)
    ensures
        match r {
            Some(i) => first_index_of(s@, c) == Some(i as nat) && i < s@.len(),
            None => first_index_of(s@, c) is None,
        },
{
    let mut j: usize = 0;
    while j < s.len()
        invariant
            j <= s@.len(),
            index_of_from(s@, c, j as int) == first_index_of(s@, c),
        decreases s@.len() - j,
    {
        if s[j] == c {
            return Some(j);
        }
        j = j + 1;
    }
    None
}

/// Split an INI line into `(key, value)` when it is a `key = value` assignment.
pub fn ini_kv(line: &[char]) -> (r: Option<(Vec<char>, Vec<char>)>)
    ensures
        match r {
            Some((k, v)) => ini_kv_spec(line@) == Some((k@, v@)),
            None => ini_kv_spec(line@) is None,
        },
{
    let p = ws_prefix(line);
    let t = copy_range(line, p, line.len());
    if t.len() > 0 && (t[0] == '#' || t[0] == ';' || t[0] == '[') {
        return None;
    }
    match index_of(t.as_slice(), '=') {
        Some(i) => {
            let kpart = copy_range(t.as_slice(), 0, i);
            let vpart = copy_range(t.as_slice(), i + 1, t.len());
            Some((trim_vec(kpart.as_slice()), trim_vec(vpart.as_slice())))
        },
        None => None,
    }
}

fn mask_vec() -> (m: Vec<char>)
    ensures
        m@ == mask_chars(),
{
    let m = chars_of(RAW_SECRET_MASK);
    proof {
        reveal_strlit("<unchanged>");
    }
    assert(m@ =~= mask_chars());
    m
}

fn is_secret_key_exec(k: &[char]) -> (r: bool)
    ensures
        r == is_secret_key(k@),
{
    let h = chars_of("password_hash");
    let e = chars_of("password_enc");
    let p = chars_of("password");
    proof {
        reveal_strlit("password_hash");
        reveal_strlit("password_enc");
        reveal_strlit("password");
    }
    assert(h@ =~= key_password_hash());
    assert(e@ =~= key_password_enc());
    assert(p@ =~= key_password());
    chars_eq(k, h.as_slice()) || chars_eq(k, e.as_slice()) || chars_eq(k, p.as_slice())
}

/// The lines of a text, as `split_inclusive('\n')` yields them.
pub open spec fn lines_view(ls: Seq<Vec<char>>) -> Seq<Seq<char>> {
    ls.map_values(|l: Vec<char>| l@)
}

fn split_lines_exec(s: &[char]) -> (ls: Vec<Vec<char>>)
    ensures
        lines_view(ls@) == split_lines(s@),
{
    let mut ls: Vec<Vec<char>> = Vec::new();
    let mut cur: Vec<char> = Vec::new();
    let mut i: usize = 0;
    assert(s@.subrange(0, s@.len() as int) =~= s@);
    assert(lines_view(ls@) =~= Seq::<Seq<char>>::empty());
    assert(cur@ =~= Seq::<char>::empty());
    while i < s.len()
        invariant
            i <= s@.len(),
            lines_view(ls@) + split_from(s@.subrange(i as int, s@.len() as int), cur@)
                == split_lines(s@),
        decreases s@.len() - i,
    {
        let ghost rest = s@.subrange(i as int, s@.len() as int);
        assert(rest.drop_first() =~= s@.subrange(i + 1, s@.len() as int));
        let c = s[i];
        if c == '\n' {
            cur.push('\n');
            let ghost old_ls = lines_view(ls@);
            ls.push(cur);
            assert(lines_view(ls@) =~= old_ls.push(cur@));
            assert(old_ls.push(cur@) + split_from(s@.subrange(i + 1, s@.len() as int), seq![])
                =~= old_ls + (seq![cur@] + split_from(
                s@.subrange(i + 1, s@.len() as int),
                seq![],
            )));
            cur = Vec::new();
        } else {
            cur.push(c);
        }
        i = i + 1;
    }
    if cur.len() > 0 {
        let ghost old_ls = lines_view(ls@);
        ls.push(cur);
        assert(lines_view(ls@) =~= old_ls.push(cur@));
    }
    assert(lines_view(ls@) =~= split_lines(s@));
    ls
}

fn mask_line_exec(line: &[char]) -> (r: Vec<char>)
    ensures
        r@ == mask_line(line@),
{
    let e = kept(line, false);
    let body = copy_range(line, 0, e);
    match ini_kv(body.as_slice()) {
        Some((k, v)) => {
            if is_secret_key_exec(k.as_slice()) && v.len() > 0 {
                let n = ws_prefix(body.as_slice());
                let mut out = copy_range(body.as_slice(), 0, n);
                append_chars(&mut out, k.as_slice());
                out.push(' ');
                out.push('=');
                out.push(' ');
                let m = mask_vec();
                append_chars(&mut out, m.as_slice());
                let eol = copy_range(line, e, line.len());
                append_chars(&mut out, eol.as_slice());
                assert(out@ =~= assign_line(indent_of(body@), k@, mask_chars(), line_eol(line@)));
                out
            } else {
                copy_range(line, 0, line.len())
            }
        },
        None => copy_range(line, 0, line.len()),
    }
}

/// Replace every secret VALUE with `<unchanged>`, preserving the rest of the file (comments,
/// ordering, spacing, line endings) exactly.
pub fn mask_raw_secrets(raw: &str) -> (out: String)
    ensures
        out@ == mask_spec(raw@),
{
    let chars = chars_of(raw);
    let ls = split_lines_exec(chars.as_slice());
    let ghost lsv = lines_view(ls@);
    let mut out: Vec<char> = Vec::new();
    let mut i: usize = 0;
    assert(lsv.subrange(0, lsv.len() as int) =~= lsv);
    assert(out@ + mask_lines(lsv) =~= mask_lines(lsv));
    while i < ls.len()
        invariant
            i <= ls@.len(),
            lsv == lines_view(ls@),
            lsv == split_lines(raw@),
            out@ + mask_lines(lsv.subrange(i as int, lsv.len() as int)) == mask_lines(lsv),
        decreases ls@.len() - i,
    {
        assert(lsv.subrange(i as int, lsv.len() as int).drop_first() =~= lsv.subrange(
            i + 1,
            lsv.len() as int,
        ));
        assert(lsv.subrange(i as int, lsv.len() as int)[0] == ls@[i as int]@);
        let piece = mask_line_exec(ls[i].as_slice());
        append_chars(&mut out, piece.as_slice());
        i = i + 1;
    }
    assert(lsv.subrange(0, lsv.len() as int) =~= lsv);
    assert(out@ =~= mask_lines(lsv));
    string_from_chars(out.as_slice())
}

/// The `(section, key, value)` entries, as character sequences.
pub open spec fn entries_view(es: Seq<(Vec<char>, Vec<char>, Vec<char>)>) -> Seq<
    (Seq<char>, Seq<char>, Seq<char>),
> {
    es.map_values(|e: (Vec<char>, Vec<char>, Vec<char>)| (e.0@, e.1@, e.2@))
}

fn lines_item_exec(line: &[char]) -> (r: Vec<char>)
    ensures
        r@ == lines_item(line@),
{
    let mut n = line.len();
    if n > 0 && line[n - 1] == '\n' {
        n = n - 1;
    }
    if n > 0 && line[n - 1] == '\r' {
        n = n - 1;
    }
    let r = copy_range(line, 0, n);
    assert(r@ =~= lines_item(line@));
    r
}

fn lookup_exec(entries: &Vec<(Vec<char>, Vec<char>, Vec<char>)>, section: &[char], k: &[char]) -> (v:
    Vec<char>)
    ensures
        v@ == lookup(entries_view(entries@), section@, k@),
{
    let ghost ev = entries_view(entries@);
    let mut j: usize = entries.len();
    assert(ev.subrange(0, j as int) =~= ev);
    while j > 0
        invariant
            j <= entries@.len(),
            ev == entries_view(entries@),
            lookup(ev.subrange(0, j as int), section@, k@) == lookup(ev, section@, k@),
        decreases j,
    {
        let ghost sub = ev.subrange(0, j as int);
        assert(sub.drop_last() =~= ev.subrange(0, j - 1));
        assert(sub.last() == ev[j - 1]);
        let e = &entries[j - 1];
        if chars_eq(e.0.as_slice(), section) && chars_eq(e.1.as_slice(), k) {
            return copy_range(e.2.as_slice(), 0, e.2.len());
        }
        j = j - 1;
    }
    assert(ev.subrange(0, 0) =~= Seq::<(Seq<char>, Seq<char>, Seq<char>)>::empty());
    Vec::new()
}

fn collect_disk_secrets(on_disk: &str) -> (es: Vec<(Vec<char>, Vec<char>, Vec<char>)>)
    ensures
        entries_view(es@) == disk_secrets(on_disk@),
{
    let chars = chars_of(on_disk);
    let ls = split_lines_exec(chars.as_slice());
    let ghost lsv = lines_view(ls@);
    let mut es: Vec<(Vec<char>, Vec<char>, Vec<char>)> = Vec::new();
    let mut section: Vec<char> = Vec::new();
    let mut i: usize = 0;
    assert(lsv.subrange(0, lsv.len() as int) =~= lsv);
    assert(entries_view(es@) =~= Seq::<(Seq<char>, Seq<char>, Seq<char>)>::empty());
    assert(section@ =~= Seq::<char>::empty());
    while i < ls.len()
        invariant
            i <= ls@.len(),
            lsv == lines_view(ls@),
            lsv == split_lines(on_disk@),
            entries_view(es@) + disk_entries(lsv.subrange(i as int, lsv.len() as int), section@)
                == disk_secrets(on_disk@),
        decreases ls@.len() - i,
    {
        let ghost rest = lsv.subrange(i as int, lsv.len() as int);
        assert(rest.drop_first() =~= lsv.subrange(i + 1, lsv.len() as int));
        assert(rest[0] == ls@[i as int]@);
        let ghost old_es = entries_view(es@);
        let l = lines_item_exec(ls[i].as_slice());
        let t = trim_vec(l.as_slice());
        if t.len() > 0 && t[0] == '[' {
            section = t;
        } else {
            match ini_kv(l.as_slice()) {
                Some((k, v)) => {
                    if is_secret_key_exec(k.as_slice()) {
                        let sec = copy_range(section.as_slice(), 0, section.len());
                        assert(sec@ =~= section@);
                        es.push((sec, k, v));
                        assert(entries_view(es@) =~= old_es.push((section@, k@, v@)));
                        assert(old_es.push((section@, k@, v@)) + disk_entries(
                            lsv.subrange(i + 1, lsv.len() as int),
                            section@,
                        ) =~= old_es + (seq![(section@, k@, v@)] + disk_entries(
                            lsv.subrange(i + 1, lsv.len() as int),
                            section@,
                        )));
                    }
                },
                None => {},
            }
        }
        i = i + 1;
    }
    assert(lsv.subrange(i as int, lsv.len() as int) =~= Seq::<Seq<char>>::empty());
    assert(entries_view(es@) =~= disk_secrets(on_disk@));
    es
}

fn unmask_line_exec(
    line: &[char],
    section: &[char],
    entries: &Vec<(Vec<char>, Vec<char>, Vec<char>)>,
) -> (r: Vec<char>)
    requires
        !is_section_header(trim(line_body(line@))),
    ensures
        r@ == (match ini_kv_spec(line_body(line@)) {
            Some((k, v)) => if is_secret_key(k) && v == mask_chars() {
                assign_line(
                    indent_of(line_body(line@)),
                    k,
                    lookup(entries_view(entries@), section@, k),
                    line_eol(line@),
                )
            } else {
                line@
            },
            None => line@,
        }),
{
    let e = kept(line, false);
    let body = copy_range(line, 0, e);
    match ini_kv(body.as_slice()) {
        Some((k, v)) => {
            let m = mask_vec();
            if is_secret_key_exec(k.as_slice()) && chars_eq(v.as_slice(), m.as_slice()) {
                let n = ws_prefix(body.as_slice());
                let mut out = copy_range(body.as_slice(), 0, n);
                append_chars(&mut out, k.as_slice());
                out.push(' ');
                out.push('=');
                out.push(' ');
                let stored = lookup_exec(entries, section, k.as_slice());
                append_chars(&mut out, stored.as_slice());
                let eol = copy_range(line, e, line.len());
                append_chars(&mut out, eol.as_slice());
                assert(out@ =~= assign_line(
                    indent_of(body@),
                    k@,
                    lookup(entries_view(entries@), section@, k@),
                    line_eol(line@),
                ));
                out
            } else {
                copy_range(line, 0, line.len())
            }
        },
        None => copy_range(line, 0, line.len()),
    }
}

/// Put the real secrets back: any masked value in `incoming` is replaced with the value the
/// same `(section, key)` holds in `on_disk` (the last such assignment there), or with nothing
/// when there is none. Keyed by section, so two users' secrets can never be swapped.
pub fn unmask_raw_secrets(incoming: &str, on_disk: &str) -> (out: String)
    ensures
        out@ == unmask_spec(incoming@, on_disk@),
{
    let entries = collect_disk_secrets(on_disk);
    let ghost ev = entries_view(entries@);
    let chars = chars_of(incoming);
    let ls = split_lines_exec(chars.as_slice());
    let ghost lsv = lines_view(ls@);
    let mut out: Vec<char> = Vec::new();
    let mut section: Vec<char> = Vec::new();
    let mut i: usize = 0;
    assert(lsv.subrange(0, lsv.len() as int) =~= lsv);
    assert(section@ =~= Seq::<char>::empty());
    assert(out@ + unmask_lines(lsv, seq![], ev) =~= unmask_lines(lsv, seq![], ev));
    while i < ls.len()
        invariant
            i <= ls@.len(),
            lsv == lines_view(ls@),
            lsv == split_lines(incoming@),
            ev == entries_view(entries@),
            ev == disk_secrets(on_disk@),
            out@ + unmask_lines(lsv.subrange(i as int, lsv.len() as int), section@, ev)
                == unmask_lines(lsv, seq![], ev),
        decreases ls@.len() - i,
    {
        let ghost rest = lsv.subrange(i as int, lsv.len() as int);
        assert(rest.drop_first() =~= lsv.subrange(i + 1, lsv.len() as int));
        assert(rest[0] == ls@[i as int]@);
        let line = ls[i].as_slice();
        let e = kept(line, false);
        let body = copy_range(line, 0, e);
        let t = trim_vec(body.as_slice());
        if t.len() > 0 && t[0] == '[' {
            append_chars(&mut out, line);
            section = t;
        } else {
            let piece = unmask_line_exec(line, section.as_slice(), &entries);
            append_chars(&mut out, piece.as_slice());
        }
        i = i + 1;
    }
    assert(lsv.subrange(i as int, lsv.len() as int) =~= Seq::<Seq<char>>::empty());
    assert(out@ =~= unmask_lines(lsv, seq![], ev));
    string_from_chars(out.as_slice())
}

} // verus!
