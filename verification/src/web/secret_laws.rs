//! What the raw-config masking promises of every file: the masked text carries no secret
//! value, masking twice changes nothing more, and restoring a masked file against itself
//! gives it back byte for byte whenever its secret lines are written `key = value` and each
//! value is the one the restore looks up for its section.

use crate::web::config::{
    disk_entries, lines_item, ws_prefix_len, assign_line, assign_sep, concat_all, eol_kept_len, index_of_from, indent_of, ini_kv_spec,
    is_eol, is_secret_key, is_section_header, is_ws, kept_from, key_password, key_password_enc,
    key_password_hash, line_body, line_eol, lookup, mask_chars, mask_line, mask_lines, mask_spec,
    split_from, split_lines, trim, trim_end, trim_start, unmask_lines, unmask_spec,
    ws_skip_from, disk_secrets, first_index_of,
};
use vstd::prelude::*;

verus! {

/// `ws_skip_from` stops at the first non-whitespace character at or after `j`.
proof fn lemma_ws_skip(s: Seq<char>, j: int, n: int)
    requires
        0 <= j <= n <= s.len(),
        forall|i: int| j <= i < n ==> is_ws(#[trigger] s[i]),
        n < s.len() ==> !is_ws(s[n]),
    ensures
        ws_skip_from(s, j) == n,
    decreases n - j,
{
    if j < n {
        lemma_ws_skip(s, j + 1, n);
    }
}

/// The character a kept-length search stops at.
spec fn strips(c: char, ws: bool) -> bool {
    if ws {
        is_ws(c)
    } else {
        is_eol(c)
    }
}

/// `kept_from` stops just after the last character, below `e`, that it does not strip.
proof fn lemma_kept_stop(s: Seq<char>, e: int, b: int, ws: bool)
    requires
        0 <= b <= e <= s.len(),
        forall|i: int| b <= i < e ==> strips(#[trigger] s[i], ws),
        b > 0 ==> !strips(s[b - 1], ws),
    ensures
        kept_from(s, e, ws) == b,
    decreases e - b,
{
    if b < e {
        lemma_kept_stop(s, e - 1, b, ws);
    }
}

/// What `kept_from` drops are stripped characters, and it stops at a kept one (or 0).
proof fn lemma_kept_bounds(s: Seq<char>, e: int, ws: bool)
    requires
        0 <= e <= s.len(),
    ensures
        0 <= kept_from(s, e, ws) <= e,
        forall|i: int| kept_from(s, e, ws) <= i < e ==> strips(#[trigger] s[i], ws),
        kept_from(s, e, ws) > 0 ==> !strips(s[kept_from(s, e, ws) - 1], ws),
    decreases e,
{
    if 0 < e && strips(s[e - 1], ws) {
        lemma_kept_bounds(s, e - 1, ws);
    }
}

/// `index_of_from` finds the first occurrence at or after `j`.
proof fn lemma_index_of(s: Seq<char>, c: char, j: int, n: int)
    requires
        0 <= j <= n < s.len(),
        forall|i: int| j <= i < n ==> #[trigger] s[i] != c,
        s[n] == c,
    ensures
        index_of_from(s, c, j) == Some(n as nat),
    decreases n - j,
{
    if j < n {
        lemma_index_of(s, c, j + 1, n);
    }
}

/// A secret key's characters: lowercase letters and `_`, starting with `p`.
proof fn lemma_secret_key_chars(k: Seq<char>)
    requires
        is_secret_key(k),
    ensures
        k.len() > 0,
        k[0] == 'p',
        !is_ws(k.last()),
        forall|i: int| 0 <= i < k.len() ==> #[trigger] k[i] != '=' && !is_ws(k[i]) && k[i] != '\n',
{
    let h = key_password_hash();
    let e = key_password_enc();
    let p = key_password();
    assert(forall|i: int| 0 <= i < h.len() ==> #[trigger] h[i] != '=' && !is_ws(h[i]) && h[i] != '\n');
    assert(forall|i: int| 0 <= i < e.len() ==> #[trigger] e[i] != '=' && !is_ws(e[i]) && e[i] != '\n');
    assert(forall|i: int| 0 <= i < p.len() ==> #[trigger] p[i] != '=' && !is_ws(p[i]) && p[i] != '\n');
}

/// A text with no whitespace at either end is its own trim.
proof fn lemma_trim_of_tight(v: Seq<char>)
    requires
        v.len() > 0,
        !is_ws(v[0]),
        !is_ws(v.last()),
    ensures
        trim(v) == v,
{
    lemma_ws_skip(v, 0, 0);
    assert(trim_start(v) =~= v);
    lemma_kept_stop(v, v.len() as int, v.len() as int, true);
    assert(trim_end(v) =~= v);
}

/// The body and ending of an assignment line `head ‖ eol` whose head does not end in a line
/// break character.
proof fn lemma_assign_line_body(head: Seq<char>, eol: Seq<char>)
    requires
        head.len() > 0,
        !is_eol(head.last()),
        forall|i: int| 0 <= i < eol.len() ==> is_eol(#[trigger] eol[i]),
    ensures
        line_body(head + eol) == head,
        line_eol(head + eol) == eol,
{
    let m = head + eol;
    assert forall|i: int| head.len() <= i < m.len() implies strips(#[trigger] m[i], false) by {
        assert(m[i] == eol[i - head.len()]);
    }
    assert(m[head.len() - 1] == head.last());
    lemma_kept_stop(m, m.len() as int, head.len() as int, false);
    assert(line_body(m) =~= head);
    assert(line_eol(m) =~= eol);
}

/// How `key ‖ " = " ‖ value` reads, for a secret key and a tight non-empty value.
proof fn lemma_key_value_reading(k: Seq<char>, v: Seq<char>)
    requires
        is_secret_key(k),
        v.len() > 0,
        !is_ws(v[0]),
        !is_ws(v.last()),
    ensures
        first_index_of(k + assign_sep() + v, '=') == Some((k.len() + 1) as nat),
        trim((k + assign_sep() + v).subrange(0, k.len() as int + 1)) == k,
        trim((k + assign_sep() + v).subrange(k.len() as int + 2, (k + assign_sep() + v).len() as int))
            == v,
{
    lemma_secret_key_chars(k);
    let t = k + assign_sep() + v;
    assert forall|i: int| 0 <= i < k.len() + 1 implies #[trigger] t[i] != '=' by {
        if i < k.len() {
            assert(t[i] == k[i]);
        } else {
            assert(t[i] == ' ');
        }
    }
    assert(t[k.len() as int + 1] == '=');
    lemma_index_of(t, '=', 0, k.len() as int + 1);
    let kp = t.subrange(0, k.len() as int + 1);
    assert(kp =~= k.push(' '));
    lemma_ws_skip(kp, 0, 0);
    assert(trim_start(kp) =~= kp);
    assert(kp[k.len() - 1] == k.last());
    assert forall|i: int| k.len() <= i < kp.len() implies strips(#[trigger] kp[i], true) by {}
    lemma_kept_stop(kp, kp.len() as int, k.len() as int, true);
    assert(trim(kp) =~= k);
    let vp = t.subrange(k.len() as int + 2, t.len() as int);
    assert(vp =~= seq![' '] + v);
    assert(vp[1] == v[0]);
    lemma_ws_skip(vp, 0, 1);
    assert(trim_start(vp) =~= v);
    lemma_trim_of_tight(v);
}

/// The shape of an assignment line `indent ‖ key ‖ " = " ‖ value ‖ eol` with a secret key
/// and a tight non-empty value: its body, ending, indent, that it is no section header, and
/// the `(key, value)` it reads as.
proof fn lemma_assign_line_shape(ind: Seq<char>, k: Seq<char>, v: Seq<char>, eol: Seq<char>)
    requires
        forall|i: int| 0 <= i < ind.len() ==> is_ws(#[trigger] ind[i]),
        is_secret_key(k),
        v.len() > 0,
        !is_ws(v[0]),
        !is_ws(v.last()),
        forall|i: int| 0 <= i < eol.len() ==> is_eol(#[trigger] eol[i]),
    ensures
        line_body(assign_line(ind, k, v, eol)) == ind + k + assign_sep() + v,
        line_eol(assign_line(ind, k, v, eol)) == eol,
        indent_of(ind + k + assign_sep() + v) == ind,
        !is_section_header(trim(ind + k + assign_sep() + v)),
        ini_kv_spec(ind + k + assign_sep() + v) == Some((k, v)),
{
    lemma_secret_key_chars(k);
    let b = ind + k + assign_sep() + v;
    assert(assign_line(ind, k, v, eol) =~= b + eol);
    assert(b.last() == v.last());
    lemma_assign_line_body(b, eol);
    assert forall|i: int| 0 <= i < ind.len() implies is_ws(#[trigger] b[i]) by {
        assert(b[i] == ind[i]);
    }
    assert(b[ind.len() as int] == k[0]);
    lemma_ws_skip(b, 0, ind.len() as int);
    assert(indent_of(b) =~= ind);
    let t = trim_start(b);
    assert(t =~= k + assign_sep() + v);
    assert(t.last() == v.last());
    lemma_kept_stop(t, t.len() as int, t.len() as int, true);
    assert(trim(b) =~= t);
    assert(trim(b)[0] == 'p');
    lemma_key_value_reading(k, v);
}

/// The masked text's placeholder is tight: no whitespace at either end.
proof fn lemma_mask_tight()
    ensures
        mask_chars().len() > 0,
        !is_ws(mask_chars()[0]),
        !is_ws(mask_chars().last()),
        forall|i: int| 0 <= i < mask_chars().len() ==> #[trigger] mask_chars()[i] != '\n',
{
}

/// A line's ending is made of `\r`/`\n` only, and its body does not end in one.
proof fn lemma_line_parts(line: Seq<char>)
    ensures
        line == line_body(line) + line_eol(line),
        forall|i: int| 0 <= i < line_eol(line).len() ==> is_eol(#[trigger] line_eol(line)[i]),
        line_body(line).len() > 0 ==> !is_eol(line_body(line).last()),
{
    lemma_kept_bounds(line, line.len() as int, false);
    let e = eol_kept_len(line) as int;
    assert(line =~= line_body(line) + line_eol(line));
    assert forall|i: int| 0 <= i < line_eol(line).len() implies is_eol(#[trigger] line_eol(line)[i]) by {
        assert(line_eol(line)[i] == line[e + i]);
        assert(strips(line[e + i], false));
    }
}

/// A text whose trim opens a section does not read as an assignment.
proof fn lemma_header_is_no_assignment(body: Seq<char>)
    requires
        is_section_header(trim(body)),
    ensures
        ini_kv_spec(body) is None,
{
    let t = trim_start(body);
    lemma_kept_bounds(t, t.len() as int, true);
    assert(trim(body)[0] == t[0]);
}

/// Everything `ws_skip_from` steps over is whitespace.
proof fn lemma_ws_skip_bounds(s: Seq<char>, j: int)
    requires
        0 <= j <= s.len(),
    ensures
        j <= ws_skip_from(s, j) <= s.len(),
        forall|i: int| j <= i < ws_skip_from(s, j) ==> is_ws(#[trigger] s[i]),
    decreases s.len() - j,
{
    if j < s.len() && is_ws(s[j]) {
        lemma_ws_skip_bounds(s, j + 1);
    }
}

/// A line as `split_inclusive('\n')` yields it: non-empty, with no `\n` but possibly its
/// last character.
pub open spec fn line_ok(l: Seq<char>) -> bool {
    &&& l.len() > 0
    &&& forall|j: int| 0 <= j < l.len() && l[j] == '\n' ==> j == l.len() - 1
}

/// A list of such lines in which every line but the last ends with `\n`.
pub open spec fn wf_lines(ls: Seq<Seq<char>>) -> bool {
    forall|i: int|
        0 <= i < ls.len() ==> line_ok(#[trigger] ls[i]) && (i + 1 < ls.len() ==> ls[i].last()
            == '\n')
}

/// The masked lines, one by one.
pub open spec fn masked_lines(ls: Seq<Seq<char>>) -> Seq<Seq<char>> {
    ls.map_values(|l: Seq<char>| mask_line(l))
}

/// No secret assignment of the line carries a value other than empty or `<unchanged>`.
pub open spec fn no_secret_value(l: Seq<char>) -> bool {
    match ini_kv_spec(line_body(l)) {
        Some((k, v)) => is_secret_key(k) ==> v.len() == 0 || v == mask_chars(),
        None => true,
    }
}

/// How a line masks: a secret assignment with a value becomes the canonical masked line,
/// whose body, ending, indent and reading are known; any other line stays.
proof fn lemma_mask_line_cases(l: Seq<char>)
    ensures
        ({
            let b = line_body(l);
            match ini_kv_spec(b) {
                Some((k, v)) => if is_secret_key(k) && v.len() > 0 {
                    let m = mask_line(l);
                    &&& m == assign_line(indent_of(b), k, mask_chars(), line_eol(l))
                    &&& line_body(m) == indent_of(b) + k + assign_sep() + mask_chars()
                    &&& line_eol(m) == line_eol(l)
                    &&& indent_of(line_body(m)) == indent_of(b)
                    &&& !is_section_header(trim(line_body(m)))
                    &&& ini_kv_spec(line_body(m)) == Some((k, mask_chars()))
                } else {
                    mask_line(l) == l
                },
                None => mask_line(l) == l,
            }
        }),
        mask_line(mask_line(l)) == mask_line(l),
        no_secret_value(mask_line(l)),
{
    let b = line_body(l);
    lemma_line_parts(l);
    if let Some((k, v)) = ini_kv_spec(b) {
        if is_secret_key(k) && v.len() > 0 {
            lemma_ws_skip_bounds(b, 0);
            let ind = indent_of(b);
            assert forall|i: int| 0 <= i < ind.len() implies is_ws(#[trigger] ind[i]) by {
                assert(ind[i] == b[i]);
            }
            lemma_mask_tight();
            lemma_assign_line_shape(ind, k, mask_chars(), line_eol(l));
        }
    }
}

/// A masked line is still a line of the same kind: non-empty, with `\n` at most at its end,
/// and ending with `\n` exactly when the unmasked line does.
proof fn lemma_mask_line_ok(l: Seq<char>)
    requires
        line_ok(l),
    ensures
        line_ok(mask_line(l)),
        (l.last() == '\n') == (mask_line(l).last() == '\n'),
{
    lemma_mask_line_cases(l);
    lemma_line_parts(l);
    let b = line_body(l);
    let e = line_eol(l);
    lemma_kept_bounds(l, l.len() as int, false);
    if let Some((k, v)) = ini_kv_spec(b) {
        if is_secret_key(k) && v.len() > 0 {
            let ind = indent_of(b);
            lemma_ws_skip_bounds(b, 0);
            lemma_secret_key_chars(k);
            lemma_mask_tight();
            let m = mask_line(l);
            let head = ind + k + assign_sep() + mask_chars();
            assert(m =~= head + e);
            // The body holds no line break: only the last character of the line may be one,
            // and that is part of the ending.
            assert forall|j: int| 0 <= j < b.len() implies #[trigger] b[j] != '\n' by {
                assert(b[j] == l[j]);
                if l[j] == '\n' {
                    assert(j == l.len() - 1);
                    assert(strips(l[j], false));
                }
            }
            assert forall|j: int| 0 <= j < head.len() implies #[trigger] head[j] != '\n' by {
                if j < ind.len() {
                    assert(head[j] == b[j]);
                } else if j < ind.len() + k.len() {
                    assert(head[j] == k[j - ind.len()]);
                } else if j < ind.len() + k.len() + 3 {
                    assert(head[j] == assign_sep()[j - ind.len() - k.len()]);
                } else {
                    assert(head[j] == mask_chars()[j - ind.len() - k.len() - 3]);
                }
            }
            assert forall|j: int| 0 <= j < m.len() && m[j] == '\n' implies j == m.len() - 1 by {
                if j >= head.len() {
                    assert(m[j] == e[j - head.len()]);
                    assert(e[j - head.len()] == l[b.len() + j - head.len()]);
                }
            }
            if e.len() > 0 {
                assert(m.last() == e.last());
                assert(e.last() == l.last());
            } else {
                assert(l =~= b);
                assert(m.last() == mask_chars().last());
            }
        }
    }
}

/// Laying the lines end to end and splitting again gives back what was split.
proof fn lemma_concat_split(s: Seq<char>, cur: Seq<char>)
    ensures
        concat_all(split_from(s, cur)) == cur + s,
    decreases s.len(),
{
    if s.len() == 0 {
        assert(cur + s =~= cur);
        if cur.len() > 0 {
            assert(seq![cur].drop_first() =~= Seq::<Seq<char>>::empty());
            assert(concat_all(Seq::<Seq<char>>::empty()) == Seq::<char>::empty());
            assert(concat_all(seq![cur]) =~= cur);
        }
    } else if s[0] == '\n' {
        lemma_concat_split(s.drop_first(), seq![]);
        let r = split_from(s.drop_first(), seq![]);
        assert((seq![cur.push('\n')] + r).drop_first() =~= r);
        assert(cur + s =~= cur.push('\n') + (seq![] + s.drop_first()));
    } else {
        lemma_concat_split(s.drop_first(), cur.push(s[0]));
        assert(cur + s =~= cur.push(s[0]) + s.drop_first());
    }
}

/// The lines `split_inclusive` yields are well formed.
proof fn lemma_split_wf(s: Seq<char>, cur: Seq<char>)
    requires
        forall|j: int| 0 <= j < cur.len() ==> cur[j] != '\n',
    ensures
        wf_lines(split_from(s, cur)),
    decreases s.len(),
{
    if s.len() == 0 {
    } else if s[0] == '\n' {
        lemma_split_wf(s.drop_first(), seq![]);
        let r = split_from(s.drop_first(), seq![]);
        let all = seq![cur.push('\n')] + r;
        assert forall|i: int| 0 <= i < all.len() implies line_ok(#[trigger] all[i]) && (i + 1
            < all.len() ==> all[i].last() == '\n') by {
            if i > 0 {
                assert(all[i] == r[i - 1]);
            }
        }
    } else {
        lemma_split_wf(s.drop_first(), cur.push(s[0]));
    }
}

/// Splitting text whose first part holds no line break carries that part into the line
/// being read.
proof fn lemma_split_skip(x: Seq<char>, y: Seq<char>, cur: Seq<char>)
    requires
        forall|j: int| 0 <= j < x.len() ==> x[j] != '\n',
    ensures
        split_from(x + y, cur) == split_from(y, cur + x),
    decreases x.len(),
{
    if x.len() == 0 {
        assert(x + y =~= y);
        assert(cur + x =~= cur);
    } else {
        assert((x + y)[0] == x[0]);
        assert((x + y).drop_first() =~= x.drop_first() + y);
        lemma_split_skip(x.drop_first(), y, cur.push(x[0]));
        assert(cur.push(x[0]) + x.drop_first() =~= cur + x);
    }
}

/// Well-formed lines laid end to end split back into themselves.
proof fn lemma_split_concat(ls: Seq<Seq<char>>)
    requires
        wf_lines(ls),
    ensures
        split_lines(concat_all(ls)) == ls,
    decreases ls.len(),
{
    if ls.len() == 0 {
        assert(split_lines(seq![]) =~= ls);
    } else {
        let l = ls[0];
        let rest = ls.drop_first();
        assert(line_ok(ls[0]));
        assert forall|i: int| 0 <= i < rest.len() implies line_ok(#[trigger] rest[i]) && (i + 1
            < rest.len() ==> rest[i].last() == '\n') by {
            assert(rest[i] == ls[i + 1]);
            assert(line_ok(ls[i + 1]));
        }
        lemma_split_concat(rest);
        let c = concat_all(rest);
        if l.last() == '\n' {
            let x = l.drop_last();
            assert forall|j: int| 0 <= j < x.len() implies x[j] != '\n' by {
                assert(x[j] == l[j]);
            }
            assert(l + c =~= x + (seq!['\n'] + c));
            lemma_split_skip(x, seq!['\n'] + c, seq![]);
            assert(Seq::<char>::empty() + x =~= x);
            assert((seq!['\n'] + c).drop_first() =~= c);
            assert(x.push('\n') =~= l);
            assert(seq![l] + rest =~= ls);
        } else {
            assert(ls.len() == 1);
            assert forall|j: int| 0 <= j < l.len() implies l[j] != '\n' by {}
            assert(c =~= Seq::<char>::empty());
            assert(l + c =~= l + Seq::<char>::empty());
            lemma_split_skip(l, Seq::<char>::empty(), seq![]);
            assert(Seq::<char>::empty() + l =~= l);
            assert(ls =~= seq![l]);
        }
    }
}

/// Masking line by line is masking the text.
proof fn lemma_mask_lines_concat(ls: Seq<Seq<char>>)
    ensures
        mask_lines(ls) == concat_all(masked_lines(ls)),
    decreases ls.len(),
{
    if ls.len() > 0 {
        assert(masked_lines(ls).drop_first() =~= masked_lines(ls.drop_first()));
        lemma_mask_lines_concat(ls.drop_first());
    }
}

/// Masked well-formed lines are well formed.
proof fn lemma_masked_wf(ls: Seq<Seq<char>>)
    requires
        wf_lines(ls),
    ensures
        wf_lines(masked_lines(ls)),
{
    assert forall|i: int| 0 <= i < masked_lines(ls).len() implies line_ok(
        #[trigger] masked_lines(ls)[i],
    ) && (i + 1 < masked_lines(ls).len() ==> masked_lines(ls)[i].last() == '\n') by {
        assert(line_ok(ls[i]));
        lemma_mask_line_ok(ls[i]);
    }
}

/// The lines of a masked text are the masked lines of the text.
proof fn lemma_split_mask(s: Seq<char>)
    ensures
        split_lines(mask_spec(s)) == masked_lines(split_lines(s)),
{
    let ls = split_lines(s);
    lemma_split_wf(s, seq![]);
    lemma_masked_wf(ls);
    lemma_mask_lines_concat(ls);
    lemma_split_concat(masked_lines(ls));
}

/// Masking never leaves a secret value in the text: every `password_hash`, `password_enc`
/// or `password` assignment of the masked text reads as empty or as `<unchanged>`.
pub proof fn masked_text_holds_no_secret(s: Seq<char>)
    ensures
        forall|i: int|
            0 <= i < split_lines(mask_spec(s)).len() ==> no_secret_value(
                #[trigger] split_lines(mask_spec(s))[i],
            ),
{
    lemma_split_mask(s);
    let ls = split_lines(s);
    assert forall|i: int| 0 <= i < masked_lines(ls).len() implies no_secret_value(
        #[trigger] masked_lines(ls)[i],
    ) by {
        lemma_mask_line_cases(ls[i]);
    }
}

/// Masking an already masked text changes nothing.
pub proof fn masking_is_idempotent(s: Seq<char>)
    ensures
        mask_spec(mask_spec(s)) == mask_spec(s),
{
    lemma_split_mask(s);
    let ls = split_lines(s);
    let ms = masked_lines(ls);
    assert(masked_lines(ms) =~= ms) by {
        assert forall|i: int| 0 <= i < ms.len() implies #[trigger] masked_lines(ms)[i] == ms[i] by {
            lemma_mask_line_cases(ls[i]);
        }
    }
    lemma_mask_lines_concat(ms);
    lemma_mask_lines_concat(ls);
}

/// Every secret assignment with a value, in the lines from `section` on, is written
/// `indent ‖ key ‖ " = " ‖ value` and its value is the one `lookup` finds for its section
/// and key among `entries` (for a file restored against itself: no later assignment of the
/// same key in the same section disagrees).
pub open spec fn canonical_secrets(
    ls: Seq<Seq<char>>,
    section: Seq<char>,
    entries: Seq<(Seq<char>, Seq<char>, Seq<char>)>,
) -> bool
    decreases ls.len(),
{
    if ls.len() == 0 {
        true
    } else {
        let body = line_body(ls[0]);
        let t = trim(body);
        if is_section_header(t) {
            canonical_secrets(ls.drop_first(), t, entries)
        } else {
            &&& match ini_kv_spec(body) {
                Some((k, v)) => is_secret_key(k) && v.len() > 0 ==> body == indent_of(body) + k
                    + assign_sep() + v && lookup(entries, section, k) == v,
                None => true,
            }
            &&& canonical_secrets(ls.drop_first(), section, entries)
        }
    }
}

/// Restoring the masked lines puts every line back.
proof fn lemma_unmask_masked_lines(
    ls: Seq<Seq<char>>,
    section: Seq<char>,
    entries: Seq<(Seq<char>, Seq<char>, Seq<char>)>,
)
    requires
        canonical_secrets(ls, section, entries),
    ensures
        unmask_lines(masked_lines(ls), section, entries) == concat_all(ls),
    decreases ls.len(),
{
    if ls.len() > 0 {
        let l = ls[0];
        let b = line_body(l);
        let t = trim(b);
        let ms = masked_lines(ls);
        assert(ms.drop_first() =~= masked_lines(ls.drop_first()));
        assert(ms[0] == mask_line(l));
        lemma_mask_line_cases(l);
        lemma_line_parts(l);
        if is_section_header(t) {
            lemma_header_is_no_assignment(b);
            lemma_unmask_masked_lines(ls.drop_first(), t, entries);
        } else {
            lemma_unmask_masked_lines(ls.drop_first(), section, entries);
            if let Some((k, v)) = ini_kv_spec(b) {
                if is_secret_key(k) && v.len() > 0 {
                    let ind = indent_of(b);
                    assert(assign_line(ind, k, v, line_eol(l)) =~= b + line_eol(l));
                }
            }
        }
    }
}

/// Restoring a masked file against the file itself gives it back byte for byte, whenever
/// each of its secret assignments is written `key = value` and holds the value the restore
/// looks up for its section and key.
pub proof fn unmask_of_mask_restores_the_file(s: Seq<char>)
    requires
        canonical_secrets(split_lines(s), seq![], disk_secrets(s)),
    ensures
        unmask_spec(mask_spec(s), s) == s,
{
    lemma_split_mask(s);
    lemma_unmask_masked_lines(split_lines(s), seq![], disk_secrets(s));
    lemma_concat_split(s, seq![]);
    assert(Seq::<char>::empty() + s =~= s);
}


/// `ws_skip_from` stops at a character that is not whitespace, or at the end.
proof fn lemma_ws_skip_stop(s: Seq<char>, j: int)
    requires
        0 <= j <= s.len(),
    ensures
        ws_skip_from(s, j) < s.len() ==> !is_ws(s[ws_skip_from(s, j)]),
    decreases s.len() - j,
{
    if j < s.len() && is_ws(s[j]) {
        lemma_ws_skip_stop(s, j + 1);
    }
}

/// Trailing whitespace does not change what `trim_end` keeps.
proof fn lemma_trim_end_ws_suffix(y: Seq<char>, w: Seq<char>)
    requires
        forall|i: int| 0 <= i < w.len() ==> is_ws(#[trigger] w[i]),
    ensures
        trim_end(y + w) == trim_end(y),
{
    let m = y + w;
    lemma_kept_bounds(y, y.len() as int, true);
    let b = kept_from(y, y.len() as int, true);
    assert forall|i: int| b <= i < m.len() implies strips(#[trigger] m[i], true) by {
        if i < y.len() {
            assert(m[i] == y[i]);
            assert(strips(y[i], true));
        } else {
            assert(m[i] == w[i - y.len()]);
        }
    }
    if b > 0 {
        assert(m[b - 1] == y[b - 1]);
    }
    lemma_kept_stop(m, m.len() as int, b, true);
    assert(trim_end(m) =~= trim_end(y));
}

/// Leading whitespace is skipped across trailing whitespace: `trim_start` of `x ‖ w` is that
/// of `x` followed by `w`, or nothing when `x` is all whitespace.
proof fn lemma_trim_start_ws_suffix(x: Seq<char>, w: Seq<char>)
    requires
        forall|i: int| 0 <= i < w.len() ==> is_ws(#[trigger] w[i]),
    ensures
        ws_prefix_len(x) < x.len() ==> trim_start(x + w) == trim_start(x) + w,
        ws_prefix_len(x) == x.len() ==> trim_start(x + w).len() == 0 && trim_start(x).len() == 0,
{
    let m = x + w;
    lemma_ws_skip_bounds(x, 0);
    lemma_ws_skip_stop(x, 0);
    let n = ws_skip_from(x, 0);
    assert forall|i: int| 0 <= i < n implies is_ws(#[trigger] m[i]) by {
        assert(m[i] == x[i]);
    }
    if n < x.len() {
        assert(m[n] == x[n]);
        lemma_ws_skip(m, 0, n);
        assert(trim_start(m) =~= trim_start(x) + w);
    } else {
        assert forall|i: int| 0 <= i < m.len() implies is_ws(#[trigger] m[i]) by {
            if i < x.len() {
                assert(m[i] == x[i]);
            } else {
                assert(m[i] == w[i - x.len()]);
            }
        }
        lemma_ws_skip(m, 0, m.len() as int);
    }
}

/// Trailing whitespace does not change a trim.
proof fn lemma_trim_ws_suffix(x: Seq<char>, w: Seq<char>)
    requires
        forall|i: int| 0 <= i < w.len() ==> is_ws(#[trigger] w[i]),
    ensures
        trim(x + w) == trim(x),
{
    lemma_trim_start_ws_suffix(x, w);
    lemma_ws_skip_bounds(x, 0);
    if ws_prefix_len(x) < x.len() {
        lemma_trim_end_ws_suffix(trim_start(x), w);
    } else {
        assert(trim_start(x + w) =~= trim_start(x));
    }
}

/// A search for `c` is not changed by appending characters other than `c`.
proof fn lemma_index_of_suffix(t: Seq<char>, w: Seq<char>, c: char, j: int)
    requires
        0 <= j,
        forall|i: int| 0 <= i < w.len() ==> #[trigger] w[i] != c,
    ensures
        index_of_from(t + w, c, j) == index_of_from(t, c, j),
    decreases (t + w).len() - j,
{
    let m = t + w;
    if j < m.len() {
        if j < t.len() {
            assert(m[j] == t[j]);
        } else {
            assert(m[j] == w[j - t.len()]);
        }
        lemma_index_of_suffix(t, w, c, j + 1);
    }
}

/// Trailing whitespace does not change how a line reads as an assignment.
proof fn lemma_ini_kv_ws_suffix(x: Seq<char>, w: Seq<char>)
    requires
        forall|i: int| 0 <= i < w.len() ==> is_ws(#[trigger] w[i]),
    ensures
        ini_kv_spec(x + w) == ini_kv_spec(x),
{
    lemma_trim_start_ws_suffix(x, w);
    lemma_ws_skip_bounds(x, 0);
    let t = trim_start(x);
    if ws_prefix_len(x) < x.len() {
        let tw = t + w;
        assert(tw[0] == t[0]);
        assert forall|i: int| 0 <= i < w.len() implies #[trigger] w[i] != '=' by {
            assert(is_ws(w[i]));
        }
        lemma_index_of_suffix(t, w, '=', 0);
        if let Some(i) = first_index_of(t, '=') {
            lemma_index_in_range(t, '=', 0);
            assert(tw.subrange(0, i as int) =~= t.subrange(0, i as int));
            assert(tw.subrange(i as int + 1, tw.len() as int) =~= t.subrange(i as int + 1, t.len() as int)
                + w);
            lemma_trim_ws_suffix(t.subrange(i as int + 1, t.len() as int), w);
        }
    }
}

/// A found index lies inside the text.
proof fn lemma_index_in_range(t: Seq<char>, c: char, j: int)
    ensures
        index_of_from(t, c, j) matches Some(i) ==> j <= i < t.len() && t[i as int] == c,
    decreases t.len() - j,
{
    if 0 <= j < t.len() && t[j] != c {
        lemma_index_in_range(t, c, j + 1);
    }
}

/// What `str::lines` yields for a line is its body followed by `\r` characters only.
proof fn lemma_lines_item_body(l: Seq<char>)
    requires
        line_ok(l),
    ensures
        exists|w: Seq<char>|
            lines_item(l) == line_body(l) + w && forall|i: int| 0 <= i < w.len() ==> is_ws(
                #[trigger] w[i],
            ),
{
    lemma_line_parts(l);
    let b = line_body(l);
    let e = line_eol(l);
    let a = if l.len() > 0 && l.last() == '\n' {
        l.drop_last()
    } else {
        l
    };
    let d: int = if l.len() > 0 && l.last() == '\n' {
        1
    } else {
        0
    };
    // Nothing of the body is dropped: its last character is no line ending.
    if d == 1 {
        assert(e.len() > 0) by {
            if e.len() == 0 {
                assert(l =~= b);
                assert(is_eol(l.last()));
            }
        }
    }
    let li = lines_item(l);
    let d2: int = if a.len() > 0 && a.last() == '\r' {
        1
    } else {
        0
    };
    assert(li == a.subrange(0, a.len() - d2));
    assert(a == l.subrange(0, l.len() - d));
    if d2 == 1 {
        assert(a.len() - 1 >= b.len()) by {
            if a.len() - 1 < b.len() {
                assert(a.last() == l[a.len() - 1]);
                assert(a.len() - 1 == b.len() - 1);
                assert(l[b.len() - 1] == b.last());
            }
        }
    }
    if d == 0 && e.len() > 0 {
        assert(l.last() == e.last());
        assert(is_eol(e.last()));
        assert(l.last() == '\r');
    }
    let w = e.subrange(0, li.len() - b.len());
    assert(li.len() >= b.len());
    assert(li =~= b + w);
    assert forall|i: int| 0 <= i < w.len() implies is_ws(#[trigger] w[i]) by {
        assert(w[i] == e[i]);
        assert(is_eol(e[i]));
        assert(l[b.len() + i] == e[i]);
        if e[i] == '\n' {
            assert(b.len() + i == l.len() - 1);
        }
    }
}

/// No `(section, key)` pair occurs twice among the entries.
pub open spec fn secret_pairs_distinct(entries: Seq<(Seq<char>, Seq<char>, Seq<char>)>) -> bool {
    forall|i: int, j: int|
        #![trigger entries[i], entries[j]]
        0 <= i < entries.len() && 0 <= j < entries.len() && i != j ==> !(entries[i].0
            == entries[j].0 && entries[i].1 == entries[j].1)
}

/// A secret assignment with a value is written `indent ‖ key ‖ " = " ‖ value ‖ line ending`.
pub open spec fn written_plainly(l: Seq<char>) -> bool {
    match ini_kv_spec(line_body(l)) {
        Some((k, v)) => is_secret_key(k) && v.len() > 0 ==> line_body(l) == indent_of(
            line_body(l),
        ) + k + assign_sep() + v,
        None => true,
    }
}

/// With no `(section, key)` pair twice, the lookup finds the one entry of that pair.
proof fn lemma_lookup_unique(entries: Seq<(Seq<char>, Seq<char>, Seq<char>)>, idx: int)
    requires
        secret_pairs_distinct(entries),
        0 <= idx < entries.len(),
    ensures
        lookup(entries, entries[idx].0, entries[idx].1) == entries[idx].2,
    decreases entries.len(),
{
    let n = entries.len() - 1;
    if idx != n {
        assert(!(entries[n].0 == entries[idx].0 && entries[n].1 == entries[idx].1));
        let p = entries.drop_last();
        assert(p[idx] == entries[idx]);
        assert forall|i: int, j: int|
            0 <= i < p.len() && 0 <= j < p.len() && i != j implies !(#[trigger] p[i].0 == #[trigger] p[j].0
            && p[i].1 == p[j].1) by {
            assert(p[i] == entries[i] && p[j] == entries[j]);
        }
        lemma_lookup_unique(p, idx);
    }
}

proof fn lemma_plain_is_canonical(
    ls: Seq<Seq<char>>,
    section: Seq<char>,
    pre: Seq<(Seq<char>, Seq<char>, Seq<char>)>,
    entries: Seq<(Seq<char>, Seq<char>, Seq<char>)>,
)
    requires
        forall|i: int| 0 <= i < ls.len() ==> line_ok(#[trigger] ls[i]),
        forall|i: int| 0 <= i < ls.len() ==> written_plainly(#[trigger] ls[i]),
        entries == pre + disk_entries(ls, section),
        secret_pairs_distinct(entries),
    ensures
        canonical_secrets(ls, section, entries),
    decreases ls.len(),
{
    if ls.len() > 0 {
        let l = ls[0];
        let rest = ls.drop_first();
        assert(line_ok(l));
        assert(written_plainly(l));
        assert forall|i: int| 0 <= i < rest.len() implies line_ok(#[trigger] rest[i]) by {
            assert(rest[i] == ls[i + 1]);
        }
        assert forall|i: int| 0 <= i < rest.len() implies written_plainly(#[trigger] rest[i]) by {
            assert(rest[i] == ls[i + 1]);
        }
        let b = line_body(l);
        lemma_lines_item_body(l);
        let w = choose|w: Seq<char>|
            lines_item(l) == b + w && forall|i: int| 0 <= i < w.len() ==> is_ws(#[trigger] w[i]);
        lemma_trim_ws_suffix(b, w);
        lemma_ini_kv_ws_suffix(b, w);
        let t = trim(b);
        if is_section_header(t) {
            lemma_plain_is_canonical(rest, t, pre, entries);
        } else {
            match ini_kv_spec(b) {
                Some((k, v)) => {
                    if is_secret_key(k) {
                        let e = (section, k, v);
                        assert(disk_entries(ls, section) == seq![e] + disk_entries(rest, section));
                        assert(entries =~= (pre + seq![e]) + disk_entries(rest, section));
                        assert(entries[pre.len() as int] == e);
                        lemma_lookup_unique(entries, pre.len() as int);
                        lemma_plain_is_canonical(rest, section, pre + seq![e], entries);
                    } else {
                        lemma_plain_is_canonical(rest, section, pre, entries);
                    }
                },
                None => {
                    lemma_plain_is_canonical(rest, section, pre, entries);
                },
            }
        }
    }
}

/// Masking a file on the way out and restoring it against itself on the way back gives it
/// back byte for byte, whenever each secret assignment with a value is written
/// `key = value` and no `(section, key)` secret pair occurs twice.
pub proof fn masked_file_round_trips(s: Seq<char>)
    requires
        forall|i: int|
            0 <= i < split_lines(s).len() ==> written_plainly(#[trigger] split_lines(s)[i]),
        secret_pairs_distinct(disk_secrets(s)),
    ensures
        unmask_spec(mask_spec(s), s) == s,
{
    lemma_split_wf(s, seq![]);
    let ls = split_lines(s);
    assert(Seq::<(Seq<char>, Seq<char>, Seq<char>)>::empty() + disk_entries(ls, seq![])
        =~= disk_secrets(s));
    lemma_plain_is_canonical(ls, seq![], seq![], disk_secrets(s));
    unmask_of_mask_restores_the_file(s);
}

} // verus!
