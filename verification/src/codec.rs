//! The persistence codec: the task collection as durable text, and back.
//!
//! The format is a JSON document, pretty-printed with a fixed layout: a list
//! of objects whose fields are, in order, `id`, `description`, `completed`,
//! `created_at` and `completed_at`. Timestamps are whole seconds since the
//! Unix epoch, written as integers; `completed_at` is `null` while a task is
//! pending. The description is written as a JSON string with `"`, `\` and
//! the control characters tab, newline and carriage return escaped.
//!
//! [`spec_encode`] is the mathematical form of the document and
//! [`spec_parse_doc`] the mathematical parser; `encode_tasks` and
//! `decode_tasks` implement them exactly, and `laws` proves that parsing an
//! encoded collection gives the collection back.

use vstd::prelude::*;
use vstd::assert_by_contradiction;
use vstd::string::*;

use crate::task::{StoreError, Task, TaskSpec};

verus! {

// ---------------------------------------------------------------------------
// The encoding, as spec functions.
// ---------------------------------------------------------------------------
/// The decimal digit `d` as a character.
pub open spec fn digit_char(d: nat) -> char {
    if d == 0 {
        '0'
    } else if d == 1 {
        '1'
    } else if d == 2 {
        '2'
    } else if d == 3 {
        '3'
    } else if d == 4 {
        '4'
    } else if d == 5 {
        '5'
    } else if d == 6 {
        '6'
    } else if d == 7 {
        '7'
    } else if d == 8 {
        '8'
    } else {
        '9'
    }
}

/// The decimal digits of `n`, most significant first, no leading zeros.
pub open spec fn dec_of(n: nat) -> Seq<char>
    decreases n,
{
    if n < 10 {
        seq![digit_char(n)]
    } else {
        dec_of(n / 10).push(digit_char(n % 10))
    }
}

/// A possibly signed decimal integer.
pub open spec fn dec_i64(v: int) -> Seq<char> {
    if v >= 0 {
        dec_of(v as nat)
    } else {
        seq!['-'] + dec_of((-v) as nat)
    }
}

/// How one character of a description is written inside the JSON string.
pub open spec fn esc_char(c: char) -> Seq<char> {
    if c == '"' {
        seq!['\\', '"']
    } else if c == '\\' {
        seq!['\\', '\\']
    } else if c == '\n' {
        seq!['\\', 'n']
    } else if c == '\r' {
        seq!['\\', 'r']
    } else if c == '\t' {
        seq!['\\', 't']
    } else {
        seq![c]
    }
}

/// A whole description, escaped character by character.
pub open spec fn spec_escape(d: Seq<char>) -> Seq<char>
    decreases d.len(),
{
    if d.len() == 0 {
        Seq::empty()
    } else {
        esc_char(d.first()) + spec_escape(d.drop_first())
    }
}

/// `true` or `false`.
pub open spec fn enc_bool(b: bool) -> Seq<char> {
    if b {
        "true"@
    } else {
        "false"@
    }
}

/// A completion time, or `null` for a pending task.
pub open spec fn enc_opt(o: Option<i64>) -> Seq<char> {
    match o {
        None => "null"@,
        Some(v) => dec_i64(v as int),
    }
}

/// One task as a pretty-printed JSON object, indented for its place in the
/// list.
pub open spec fn enc_task(t: TaskSpec) -> Seq<char> {
    "  {\n    \"id\": "@ + dec_of(t.id as nat) + ",\n    \"description\": \""@ + spec_escape(
        t.description,
    ) + "\""@ + ",\n    \"completed\": "@ + enc_bool(t.completed) + ",\n    \"created_at\": "@
        + dec_i64(t.created_at as int) + ",\n    \"completed_at\": "@ + enc_opt(t.completed_at)
        + "\n  }"@
}

/// The document after the first task: each further task behind a separator,
/// then the closing bracket.
pub open spec fn enc_more(rest: Seq<TaskSpec>) -> Seq<char>
    decreases rest.len(),
{
    if rest.len() == 0 {
        "\n]"@
    } else {
        ",\n"@ + enc_task(rest.first()) + enc_more(rest.drop_first())
    }
}

/// The whole document: `[]` for an empty collection, else the bracketed,
/// comma-separated task objects.
pub open spec fn spec_encode(ts: Seq<TaskSpec>) -> Seq<char> {
    if ts.len() == 0 {
        "[]"@
    } else {
        "[\n"@ + enc_task(ts.first()) + enc_more(ts.drop_first())
    }
}

// ---------------------------------------------------------------------------
// The encoder.
// ---------------------------------------------------------------------------
/// Relies on std's `String::push`: appends exactly the given character.
#[verifier::external_body]
fn push_char(out: &mut String, c: char)
    ensures
        final(out)@ == old(out)@.push(c),
{
    out.push(c);
}

/// Appends one decimal digit.
fn push_digit(out: &mut String, d: u64)
    requires
        d < 10,
    ensures
        final(out)@ == old(out)@.push(digit_char(d as nat)),
{
    match d {
        0 => push_char(out, '0'),
        1 => push_char(out, '1'),
        2 => push_char(out, '2'),
        3 => push_char(out, '3'),
        4 => push_char(out, '4'),
        5 => push_char(out, '5'),
        6 => push_char(out, '6'),
        7 => push_char(out, '7'),
        8 => push_char(out, '8'),
        _ => push_char(out, '9'),
    }
}

/// Appends the decimal digits of `n`.
pub(crate) fn push_u64(out: &mut String, n: u64)
    ensures
        final(out)@ == old(out)@ + dec_of(n as nat),
    decreases n,
{
    if n < 10 {
        push_digit(out, n);
        proof {
            assert(old(out)@.push(digit_char(n as nat)) =~= old(out)@ + dec_of(n as nat));
        }
    } else {
        push_u64(out, n / 10);
        push_digit(out, n % 10);
        proof {
            assert((old(out)@ + dec_of((n / 10) as nat)).push(digit_char((n % 10) as nat)) =~= old(
                out,
            )@ + dec_of(n as nat));
        }
    }
}

/// Appends a possibly signed decimal integer.
fn push_i64(out: &mut String, v: i64)
    ensures
        final(out)@ == old(out)@ + dec_i64(v as int),
{
    if v >= 0 {
        push_u64(out, v as u64);
    } else {
        push_char(out, '-');
        let m: u64 = if v == i64::MIN {
            9223372036854775808
        } else {
            (-v) as u64
        };
        push_u64(out, m);
        proof {
            assert(m as nat == (-(v as int)) as nat);
            assert(old(out)@.push('-') + dec_of(m as nat) =~= old(out)@ + dec_i64(v as int));
        }
    }
}

/// Escaping one character more extends the escaped text by that character's
/// escape.
proof fn lemma_escape_snoc(u: Seq<char>, c: char)
    ensures
        spec_escape(u.push(c)) == spec_escape(u) + esc_char(c),
    decreases u.len(),
{
    let v = u.push(c);
    if u.len() == 0 {
        assert(v.first() == c);
        assert(v.drop_first() =~= Seq::<char>::empty());
        assert(esc_char(c) + spec_escape(Seq::<char>::empty()) =~= esc_char(c));
        assert(spec_escape(u) + esc_char(c) =~= esc_char(c));
    } else {
        assert(v.first() == u.first());
        assert(v.drop_first() =~= u.drop_first().push(c));
        lemma_escape_snoc(u.drop_first(), c);
        assert(esc_char(u.first()) + (spec_escape(u.drop_first()) + esc_char(c)) =~= (esc_char(
            u.first(),
        ) + spec_escape(u.drop_first())) + esc_char(c));
    }
}

/// Appends the description `d`, escaped.
fn push_escaped(out: &mut String, d: &str)
    ensures
        final(out)@ == old(out)@ + spec_escape(d@),
{
    let n = d.unicode_len();
    let mut i: usize = 0;
    proof {
        assert(d@.take(0) =~= Seq::<char>::empty());
        assert(old(out)@ + spec_escape(d@.take(0)) =~= old(out)@);
    }
    while i < n
        invariant
            i <= n,
            n == d@.len(),
            out@ == old(out)@ + spec_escape(d@.take(i as int)),
        decreases n - i,
    {
        let ghost before = out@;
        let c = d.get_char(i);
        match c {
            '"' => {
                push_char(out, '\\');
                push_char(out, '"');
            },
            '\\' => {
                push_char(out, '\\');
                push_char(out, '\\');
            },
            '\n' => {
                push_char(out, '\\');
                push_char(out, 'n');
            },
            '\r' => {
                push_char(out, '\\');
                push_char(out, 'r');
            },
            '\t' => {
                push_char(out, '\\');
                push_char(out, 't');
            },
            _ => {
                push_char(out, c);
            },
        }
        proof {
            assert(out@ =~= before + esc_char(c));
            lemma_escape_snoc(d@.take(i as int), c);
            assert(d@.take(i as int).push(c) =~= d@.take(i + 1));
            assert((old(out)@ + spec_escape(d@.take(i as int))) + esc_char(c) =~= old(out)@
                + spec_escape(d@.take(i + 1)));
        }
        i += 1;
    }
    proof {
        assert(d@.take(n as int) =~= d@);
    }
}

/// Appends one task as its JSON object.
fn push_task(out: &mut String, t: &Task)
    ensures
        final(out)@ == old(out)@ + enc_task(t@),
{
    let ghost o0 = old(out)@;
    out.append("  {\n    \"id\": ");
    push_u64(out, t.id);
    proof {
        assert((o0 + "  {\n    \"id\": "@) + dec_of(t.id as nat) =~= o0 + ("  {\n    \"id\": "@
            + dec_of(t.id as nat)));
    }
    let ghost p1 = "  {\n    \"id\": "@ + dec_of(t@.id as nat);
    out.append(",\n    \"description\": \"");
    proof {
        assert((o0 + p1) + ",\n    \"description\": \""@ =~= o0 + (p1
            + ",\n    \"description\": \""@));
    }
    let ghost p2 = p1 + ",\n    \"description\": \""@;
    push_escaped(out, t.description.as_str());
    proof {
        assert((o0 + p2) + spec_escape(t@.description) =~= o0 + (p2 + spec_escape(t@.description)));
    }
    let ghost p3 = p2 + spec_escape(t@.description);
    out.append("\"");
    proof {
        assert((o0 + p3) + "\""@ =~= o0 + (p3 + "\""@));
    }
    let ghost p3q = p3 + "\""@;
    out.append(",\n    \"completed\": ");
    proof {
        assert((o0 + p3q) + ",\n    \"completed\": "@ =~= o0 + (p3q + ",\n    \"completed\": "@));
    }
    let ghost p4 = p3q + ",\n    \"completed\": "@;
    if t.completed {
        out.append("true");
    } else {
        out.append("false");
    }
    proof {
        assert((o0 + p4) + enc_bool(t@.completed) =~= o0 + (p4 + enc_bool(t@.completed)));
    }
    let ghost p5 = p4 + enc_bool(t@.completed);
    out.append(",\n    \"created_at\": ");
    proof {
        assert((o0 + p5) + ",\n    \"created_at\": "@ =~= o0 + (p5 + ",\n    \"created_at\": "@));
    }
    let ghost p6 = p5 + ",\n    \"created_at\": "@;
    push_i64(out, t.created_at);
    proof {
        assert((o0 + p6) + dec_i64(t@.created_at as int) =~= o0 + (p6 + dec_i64(
            t@.created_at as int,
        )));
    }
    let ghost p7 = p6 + dec_i64(t@.created_at as int);
    out.append(",\n    \"completed_at\": ");
    proof {
        assert((o0 + p7) + ",\n    \"completed_at\": "@ =~= o0 + (p7
            + ",\n    \"completed_at\": "@));
    }
    let ghost p8 = p7 + ",\n    \"completed_at\": "@;
    match &t.completed_at {
        None => {
            out.append("null");
        },
        Some(v) => {
            push_i64(out, *v);
        },
    }
    proof {
        assert((o0 + p8) + enc_opt(t@.completed_at) =~= o0 + (p8 + enc_opt(t@.completed_at)));
    }
    let ghost p9 = p8 + enc_opt(t@.completed_at);
    out.append("\n  }");
    proof {
        assert((o0 + p9) + "\n  }"@ =~= o0 + (p9 + "\n  }"@));
        assert(p9 + "\n  }"@ =~= enc_task(t@));
    }
}

/// The whole collection as the persisted document.
pub fn encode_tasks(tasks: &Vec<Task>) -> (r: String)
    ensures
        r@ == spec_encode(tasks.deep_view()),
{
    let ghost ts = tasks.deep_view();
    if tasks.len() == 0 {
        let r = String::from_str("[]");
        proof {
            assert(ts.len() == 0);
        }
        return r;
    }
    let mut out = String::new();
    out.append("[\n");
    let first = &tasks[0];
    push_task(&mut out, first);
    proof {
        assert(ts.first() == first@);
        assert((Seq::<char>::empty() + "[\n"@) + enc_task(ts.first()) =~= "[\n"@ + enc_task(
            ts.first(),
        ));
        assert(ts.drop_first() =~= ts.skip(1));
        assert(out@ + enc_more(ts.skip(1)) =~= spec_encode(ts));
    }
    let n = tasks.len();
    let mut i: usize = 1;
    while i < n
        invariant
            1 <= i <= n,
            n == tasks.len(),
            ts == tasks.deep_view(),
            ts.len() == n,
            out@ + enc_more(ts.skip(i as int)) == spec_encode(ts),
        decreases n - i,
    {
        let ghost before = out@;
        out.append(",\n");
        let t = &tasks[i];
        push_task(&mut out, t);
        proof {
            let rest = ts.skip(i as int);
            assert(rest.len() > 0);
            assert(rest.first() == t@);
            assert(rest.drop_first() =~= ts.skip(i + 1));
            assert(enc_more(rest) == ",\n"@ + enc_task(t@) + enc_more(ts.skip(i + 1)));
            assert(out@ =~= (before + ",\n"@) + enc_task(t@));
            assert(out@ + enc_more(ts.skip(i + 1)) =~= before + (",\n"@ + enc_task(t@) + enc_more(
                ts.skip(i + 1),
            )));
            assert((",\n"@ + enc_task(t@)) + enc_more(ts.skip(i + 1)) =~= ",\n"@ + enc_task(t@)
                + enc_more(ts.skip(i + 1)));
        }
        i += 1;
    }
    proof {
        assert(ts.skip(n as int) =~= Seq::<TaskSpec>::empty());
    }
    out.append("\n]");
    proof {
        assert(enc_more(ts.skip(n as int)) == "\n]"@);
    }
    out
}

// ---------------------------------------------------------------------------
// The parser, as spec functions.
// ---------------------------------------------------------------------------
/// Whether `c` is a decimal digit.
pub open spec fn is_digit(c: char) -> bool {
    c == '0' || c == '1' || c == '2' || c == '3' || c == '4' || c == '5' || c == '6' || c == '7'
        || c == '8' || c == '9'
}

/// The value of a decimal digit character.
pub open spec fn digit_val(c: char) -> nat {
    if c == '0' {
        0
    } else if c == '1' {
        1
    } else if c == '2' {
        2
    } else if c == '3' {
        3
    } else if c == '4' {
        4
    } else if c == '5' {
        5
    } else if c == '6' {
        6
    } else if c == '7' {
        7
    } else if c == '8' {
        8
    } else {
        9
    }
}

/// The position after the literal `tok` when it stands at `i` in `s`.
pub open spec fn spec_expect(s: Seq<char>, i: int, tok: Seq<char>) -> Option<int> {
    if 0 <= i && i + tok.len() <= s.len() && s.subrange(i, i + tok.len()) == tok {
        Some(i + tok.len())
    } else {
        None
    }
}

/// Reads digits from `i` on, most significant first, into the running value
/// `acc`; stops at the first non-digit and fails when the value would pass
/// `max`.
pub open spec fn spec_parse_digits(s: Seq<char>, i: int, acc: int, max: int) -> Option<(int, int)>
    decreases s.len() - i,
{
    if i < 0 || i >= s.len() {
        Some((acc, i))
    } else if !is_digit(s[i]) {
        Some((acc, i))
    } else if acc * 10 + digit_val(s[i]) > max {
        None
    } else {
        spec_parse_digits(s, i + 1, acc * 10 + digit_val(s[i]), max)
    }
}

/// An unsigned decimal number of at least one digit, at most `max`.
pub open spec fn spec_parse_number(s: Seq<char>, i: int, max: int) -> Option<(int, int)> {
    if 0 <= i < s.len() && is_digit(s[i]) {
        spec_parse_digits(s, i, 0, max)
    } else {
        None
    }
}

/// A possibly `-`-signed decimal number in the value range of `i64`.
pub open spec fn spec_parse_i64(s: Seq<char>, i: int) -> Option<(int, int)> {
    if 0 <= i < s.len() && s[i] == '-' {
        match spec_parse_number(s, i + 1, 9223372036854775808) {
            Some(p) => Some((-p.0, p.1)),
            None => None,
        }
    } else {
        spec_parse_number(s, i, 9223372036854775807)
    }
}

/// The body of a JSON string from `i` on, unescaping as it goes, up to and
/// including the closing quote; `acc` carries the characters read so far.
pub open spec fn spec_parse_string(s: Seq<char>, i: int, acc: Seq<char>) -> Option<
    (Seq<char>, int),
>
    decreases s.len() - i,
{
    if i < 0 || i >= s.len() {
        None
    } else {
        let c = s[i];
        if c == '"' {
            Some((acc, i + 1))
        } else if c == '\\' {
            if i + 1 < s.len() {
                let e = s[i + 1];
                if e == '"' {
                    spec_parse_string(s, i + 2, acc.push('"'))
                } else if e == '\\' {
                    spec_parse_string(s, i + 2, acc.push('\\'))
                } else if e == 'n' {
                    spec_parse_string(s, i + 2, acc.push('\n'))
                } else if e == 'r' {
                    spec_parse_string(s, i + 2, acc.push('\r'))
                } else if e == 't' {
                    spec_parse_string(s, i + 2, acc.push('\t'))
                } else {
                    None
                }
            } else {
                None
            }
        } else {
            spec_parse_string(s, i + 1, acc.push(c))
        }
    }
}

/// `true` or `false`.
pub open spec fn spec_parse_bool(s: Seq<char>, i: int) -> Option<(bool, int)> {
    match spec_expect(s, i, "true"@) {
        Some(j) => Some((true, j)),
        None => match spec_expect(s, i, "false"@) {
            Some(j) => Some((false, j)),
            None => None,
        },
    }
}

/// `null`, or a completion time.
pub open spec fn spec_parse_opt(s: Seq<char>, i: int) -> Option<(Option<i64>, int)> {
    match spec_expect(s, i, "null"@) {
        Some(j) => Some((None, j)),
        None => match spec_parse_i64(s, i) {
            Some(p) => Some((Some(p.0 as i64), p.1)),
            None => None,
        },
    }
}

/// One task object, fields in their fixed order.
pub open spec fn spec_parse_task(s: Seq<char>, i: int) -> Option<(TaskSpec, int)> {
    match spec_expect(s, i, "  {\n    \"id\": "@) {
        None => None,
        Some(i1) => match spec_parse_number(s, i1, 18446744073709551615) {
            None => None,
            Some((idv, i2)) => match spec_expect(s, i2, ",\n    \"description\": \""@) {
                None => None,
                Some(i3) => match spec_parse_string(s, i3, Seq::empty()) {
                    None => None,
                    Some((d, i4)) => match spec_expect(s, i4, ",\n    \"completed\": "@) {
                        None => None,
                        Some(i5) => match spec_parse_bool(s, i5) {
                            None => None,
                            Some((b, i6)) => match spec_expect(s, i6, ",\n    \"created_at\": "@) {
                                None => None,
                                Some(i7) => match spec_parse_i64(s, i7) {
                                    None => None,
                                    Some((ca, i8)) => match spec_expect(
                                        s,
                                        i8,
                                        ",\n    \"completed_at\": "@,
                                    ) {
                                        None => None,
                                        Some(i9) => match spec_parse_opt(s, i9) {
                                            None => None,
                                            Some((co, i10)) => match spec_expect(s, i10, "\n  }"@) {
                                                None => None,
                                                Some(i11) => Some(
                                                    (
                                                        TaskSpec {
                                                            id: idv as u64,
                                                            description: d,
                                                            completed: b,
                                                            created_at: ca as i64,
                                                            completed_at: co,
                                                        },
                                                        i11,
                                                    ),
                                                ),
                                            },
                                        },
                                    },
                                },
                            },
                        },
                    },
                },
            },
        },
    }
}

/// The tasks of a non-empty document from `i` on: one task, then either a
/// separator and more tasks, or the closing bracket.
pub open spec fn spec_parse_tasks_rest(s: Seq<char>, i: int, acc: Seq<TaskSpec>) -> Option<
    (Seq<TaskSpec>, int),
>
    decreases s.len() - i,
{
    match spec_parse_task(s, i) {
        None => None,
        Some((t, j)) => match spec_expect(s, j, ",\n"@) {
            Some(k) => {
                if i < k <= s.len() {
                    spec_parse_tasks_rest(s, k, acc.push(t))
                } else {
                    None
                }
            },
            None => match spec_expect(s, j, "\n]"@) {
                Some(k) => Some((acc.push(t), k)),
                None => None,
            },
        },
    }
}

/// The whole document. `None` is a corrupt store: the text is not an
/// encoding of any collection.
pub open spec fn spec_parse_doc(s: Seq<char>) -> Option<Seq<TaskSpec>> {
    if s.len() == 2 && s == "[]"@ {
        Some(Seq::empty())
    } else {
        match spec_expect(s, 0, "[\n"@) {
            None => None,
            Some(i) => match spec_parse_tasks_rest(s, i, Seq::empty()) {
                None => None,
                Some((ts, j)) => {
                    if j == s.len() {
                        Some(ts)
                    } else {
                        None
                    }
                },
            },
        }
    }
}

// ---------------------------------------------------------------------------
// The decoder.
// ---------------------------------------------------------------------------
/// The characters of `text`, one vector element each.
fn str_to_chars(text: &str) -> (r: Vec<char>)
    ensures
        r@ == text@,
{
    let n = text.unicode_len();
    let mut v: Vec<char> = Vec::new();
    proof {
        assert(v@ =~= text@.take(0));
    }
    let mut i: usize = 0;
    while i < n
        invariant
            i <= n,
            n == text@.len(),
            v@ == text@.take(i as int),
        decreases n - i,
    {
        let c = text.get_char(i);
        v.push(c);
        proof {
            assert(v@ =~= text@.take(i + 1));
        }
        i += 1;
    }
    proof {
        assert(text@.take(n as int) =~= text@);
    }
    v
}

/// The position after `tok` when it stands at `i`, or nothing.
fn expect_tok(s: &Vec<char>, i: usize, tok: &str) -> (r: Option<usize>)
    requires
        i <= s@.len(),
    ensures
        match r {
            Some(j) => spec_expect(s@, i as int, tok@) == Some(j as int) && i <= j <= s@.len(),
            None => spec_expect(s@, i as int, tok@) is None,
        },
{
    let tl = tok.unicode_len();
    if s.len() - i < tl {
        return None;
    }
    let mut j: usize = 0;
    while j < tl
        invariant
            j <= tl,
            tl == tok@.len(),
            i <= s@.len(),
            i + tl <= s@.len(),
            s@.len() <= usize::MAX,
            forall|k: int| 0 <= k < j ==> s@[i + k] == tok@[k],
        decreases tl - j,
    {
        let c = s[i + j];
        let e = tok.get_char(j);
        if c != e {
            proof {
                assert_by_contradiction!(s@.subrange(i as int, i + tok@.len()) != tok@, {
                    assert(s@.subrange(i as int, i + tok@.len())[j as int] == s@[i + j]);
                });
            }
            return None;
        }
        j += 1;
    }
    proof {
        assert(s@.subrange(i as int, i + tok@.len()) =~= tok@);
    }
    Some(i + tl)
}

/// The digit's value, or nothing for any other character.
fn digit_of(c: char) -> (r: Option<u64>)
    ensures
        match r {
            Some(d) => is_digit(c) && d == digit_val(c) && d < 10,
            None => !is_digit(c),
        },
{
    match c {
        '0' => Some(0),
        '1' => Some(1),
        '2' => Some(2),
        '3' => Some(3),
        '4' => Some(4),
        '5' => Some(5),
        '6' => Some(6),
        '7' => Some(7),
        '8' => Some(8),
        '9' => Some(9),
        _ => None,
    }
}

/// A successful digit read never moves backwards nor past the end.
proof fn lemma_parse_digits_pos(s: Seq<char>, i: int, acc: int, max: int)
    requires
        0 <= i <= s.len(),
    ensures
        match spec_parse_digits(s, i, acc, max) {
            Some(p) => i <= p.1 <= s.len(),
            None => true,
        },
    decreases s.len() - i,
{
    if 0 <= i < s.len() && is_digit(s[i]) && acc * 10 + digit_val(s[i]) <= max {
        lemma_parse_digits_pos(s, i + 1, acc * 10 + digit_val(s[i]), max);
    }
}

/// Digits from `i` on, accumulating onto `acc`, exactly as
/// [`spec_parse_digits`] reads them.
fn parse_digits(s: &Vec<char>, i: usize, acc: u64, max: u64) -> (r: Option<(u64, usize)>)
    requires
        i <= s@.len(),
        acc <= max,
    ensures
        match r {
            Some(p) => {
                &&& spec_parse_digits(s@, i as int, acc as int, max as int) == Some(
                    (p.0 as int, p.1 as int),
                )
                &&& i <= p.1 <= s@.len()
                &&& p.0 <= max
            },
            None => spec_parse_digits(s@, i as int, acc as int, max as int) is None,
        },
    decreases s@.len() - i,
{
    if i >= s.len() {
        return Some((acc, i));
    }
    let c = s[i];
    match digit_of(c) {
        None => Some((acc, i)),
        Some(d) => {
            let wide: u128 = acc as u128 * 10 + d as u128;
            if wide > max as u128 {
                None
            } else {
                parse_digits(s, i + 1, wide as u64, max)
            }
        },
    }
}

/// An unsigned number of at least one digit, at most `max`, exactly as
/// [`spec_parse_number`] reads it.
fn parse_number(s: &Vec<char>, i: usize, max: u64) -> (r: Option<(u64, usize)>)
    requires
        i <= s@.len(),
        max >= 9,
    ensures
        match r {
            Some(p) => {
                &&& spec_parse_number(s@, i as int, max as int) == Some((p.0 as int, p.1 as int))
                &&& i < p.1 <= s@.len()
                &&& p.0 <= max
            },
            None => spec_parse_number(s@, i as int, max as int) is None,
        },
{
    if i >= s.len() {
        return None;
    }
    let c = s[i];
    match digit_of(c) {
        None => None,
        Some(_) => {
            proof {
                lemma_parse_digits_pos(s@, i + 1, digit_val(s@[i as int]) as int, max as int);
            }
            parse_digits(s, i, 0, max)
        },
    }
}

/// A signed number in `i64` range, exactly as [`spec_parse_i64`] reads it.
fn parse_i64(s: &Vec<char>, i: usize) -> (r: Option<(i64, usize)>)
    requires
        i <= s@.len(),
    ensures
        match r {
            Some(p) => {
                &&& spec_parse_i64(s@, i as int) == Some((p.0 as int, p.1 as int))
                &&& i < p.1 <= s@.len()
            },
            None => spec_parse_i64(s@, i as int) is None,
        },
{
    if i < s.len() && s[i] == '-' {
        match parse_number(s, i + 1, 9223372036854775808u64) {
            None => None,
            Some((m, j)) => {
                let v: i64 = if m == 9223372036854775808u64 {
                    i64::MIN
                } else {
                    -(m as i64)
                };
                Some((v, j))
            },
        }
    } else {
        match parse_number(s, i, 9223372036854775807u64) {
            None => None,
            Some((m, j)) => Some((m as i64, j)),
        }
    }
}

/// The body of a JSON string from `i` on, appending the unescaped characters
/// to `out`, exactly as [`spec_parse_string`] reads it.
fn parse_string_into(s: &Vec<char>, i: usize, out: &mut String) -> (r: Option<usize>)
    requires
        i <= s@.len(),
    ensures
        match r {
            Some(j) => {
                &&& spec_parse_string(s@, i as int, old(out)@) == Some((final(out)@, j as int))
                &&& i < j <= s@.len()
            },
            None => spec_parse_string(s@, i as int, old(out)@) is None,
        },
    decreases s@.len() - i,
{
    if i >= s.len() {
        return None;
    }
    let c = s[i];
    if c == '"' {
        return Some(i + 1);
    }
    if c == '\\' {
        if i + 1 >= s.len() {
            return None;
        }
        let e = s[i + 1];
        match e {
            '"' => {
                push_char(out, '"');
                parse_string_into(s, i + 2, out)
            },
            '\\' => {
                push_char(out, '\\');
                parse_string_into(s, i + 2, out)
            },
            'n' => {
                push_char(out, '\n');
                parse_string_into(s, i + 2, out)
            },
            'r' => {
                push_char(out, '\r');
                parse_string_into(s, i + 2, out)
            },
            't' => {
                push_char(out, '\t');
                parse_string_into(s, i + 2, out)
            },
            _ => None,
        }
    } else {
        push_char(out, c);
        parse_string_into(s, i + 1, out)
    }
}

/// `true` or `false`, exactly as [`spec_parse_bool`] reads it.
fn parse_bool(s: &Vec<char>, i: usize) -> (r: Option<(bool, usize)>)
    requires
        i <= s@.len(),
    ensures
        match r {
            Some(p) => {
                &&& spec_parse_bool(s@, i as int) == Some((p.0, p.1 as int))
                &&& i <= p.1 <= s@.len()
            },
            None => spec_parse_bool(s@, i as int) is None,
        },
{
    match expect_tok(s, i, "true") {
        Some(j) => Some((true, j)),
        None => match expect_tok(s, i, "false") {
            Some(j) => Some((false, j)),
            None => None,
        },
    }
}

/// `null` or a completion time, exactly as [`spec_parse_opt`] reads it.
fn parse_opt(s: &Vec<char>, i: usize) -> (r: Option<(Option<i64>, usize)>)
    requires
        i <= s@.len(),
    ensures
        match r {
            Some(p) => {
                &&& spec_parse_opt(s@, i as int) == Some((p.0, p.1 as int))
                &&& i <= p.1 <= s@.len()
            },
            None => spec_parse_opt(s@, i as int) is None,
        },
{
    match expect_tok(s, i, "null") {
        Some(j) => Some((None, j)),
        None => match parse_i64(s, i) {
            None => None,
            Some((v, j)) => Some((Some(v), j)),
        },
    }
}

/// One task object, exactly as [`spec_parse_task`] reads it.
fn parse_task(s: &Vec<char>, i: usize) -> (r: Option<(Task, usize)>)
    requires
        i <= s@.len(),
    ensures
        match r {
            Some(p) => {
                &&& spec_parse_task(s@, i as int) == Some((p.0@, p.1 as int))
                &&& i < p.1 <= s@.len()
            },
            None => spec_parse_task(s@, i as int) is None,
        },
{
    let i1 = match expect_tok(s, i, "  {\n    \"id\": ") {
        None => {
            return None;
        },
        Some(j) => j,
    };
    let (idv, i2) = match parse_number(s, i1, 18446744073709551615u64) {
        None => {
            return None;
        },
        Some(p) => p,
    };
    let i3 = match expect_tok(s, i2, ",\n    \"description\": \"") {
        None => {
            return None;
        },
        Some(j) => j,
    };
    let mut desc = String::new();
    let i4 = match parse_string_into(s, i3, &mut desc) {
        None => {
            return None;
        },
        Some(j) => j,
    };
    let i5 = match expect_tok(s, i4, ",\n    \"completed\": ") {
        None => {
            return None;
        },
        Some(j) => j,
    };
    let (b, i6) = match parse_bool(s, i5) {
        None => {
            return None;
        },
        Some(p) => p,
    };
    let i7 = match expect_tok(s, i6, ",\n    \"created_at\": ") {
        None => {
            return None;
        },
        Some(j) => j,
    };
    let (ca, i8) = match parse_i64(s, i7) {
        None => {
            return None;
        },
        Some(p) => p,
    };
    let i9 = match expect_tok(s, i8, ",\n    \"completed_at\": ") {
        None => {
            return None;
        },
        Some(j) => j,
    };
    let (co, i10) = match parse_opt(s, i9) {
        None => {
            return None;
        },
        Some(p) => p,
    };
    let i11 = match expect_tok(s, i10, "\n  }") {
        None => {
            return None;
        },
        Some(j) => j,
    };
    let task = Task { id: idv, description: desc, completed: b, created_at: ca, completed_at: co };
    Some((task, i11))
}

/// The task list of a non-empty document, appended to `acc`, exactly as
/// [`spec_parse_tasks_rest`] reads it.
fn parse_tasks(s: &Vec<char>, i: usize, acc: &mut Vec<Task>) -> (r: Option<usize>)
    requires
        i <= s@.len(),
    ensures
        match r {
            Some(j) => spec_parse_tasks_rest(s@, i as int, old(acc).deep_view()) == Some(
                (final(acc).deep_view(), j as int),
            ) && j <= s@.len(),
            None => spec_parse_tasks_rest(s@, i as int, old(acc).deep_view()) is None,
        },
    decreases s@.len() - i,
{
    let (t, j) = match parse_task(s, i) {
        None => {
            return None;
        },
        Some(p) => p,
    };
    let ghost d0 = acc.deep_view();
    let ghost v0 = acc@;
    let ghost tv = t@;
    acc.push(t);
    proof {
        let d1 = acc.deep_view();
        assert forall|k: int| 0 <= k < d1.len() implies d1[k] == d0.push(tv)[k] by {
            assert(d1[k] == acc@[k]@);
            if k < v0.len() {
                assert(acc@[k] == v0[k]);
                assert(d0[k] == v0[k]@);
            } else {
                assert(acc@[k] == t);
            }
        }
        assert(d1 =~= d0.push(tv));
    }
    match expect_tok(s, j, ",\n") {
        Some(k) => parse_tasks(s, k, acc),
        None => match expect_tok(s, j, "\n]") {
            Some(k) => Some(k),
            None => None,
        },
    }
}

/// The persisted document as the task collection it encodes, or
/// `CorruptStore` for text that encodes none.
pub fn decode_tasks(text: &str) -> (r: Result<Vec<Task>, StoreError>)
    ensures
        match r {
            Ok(ts) => spec_parse_doc(text@) == Some(ts.deep_view()),
            Err(e) => spec_parse_doc(text@) is None && e == StoreError::CorruptStore,
        },
{
    let s = str_to_chars(text);
    if s.len() == 2 {
        let empty_doc = match expect_tok(&s, 0, "[]") {
            Some(_) => true,
            None => false,
        };
        proof {
            reveal_strlit("[]");
            assert(s@.subrange(0, 2) =~= s@);
        }
        if empty_doc {
            let r: Vec<Task> = Vec::new();
            proof {
                assert(r.deep_view() =~= Seq::<TaskSpec>::empty());
            }
            return Ok(r);
        }
    }
    match expect_tok(&s, 0, "[\n") {
        None => Err(StoreError::CorruptStore),
        Some(i0) => {
            let mut acc: Vec<Task> = Vec::new();
            proof {
                assert(acc.deep_view() =~= Seq::<TaskSpec>::empty());
            }
            match parse_tasks(&s, i0, &mut acc) {
                None => Err(StoreError::CorruptStore),
                Some(j) => {
                    if j == s.len() {
                        Ok(acc)
                    } else {
                        Err(StoreError::CorruptStore)
                    }
                },
            }
        },
    }
}

} // verus!
