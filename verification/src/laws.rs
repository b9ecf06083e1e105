//! The library's laws: what holds across several operations, proved once and
//! for all. The centrepiece is the codec round trip: parsing an encoded
//! collection gives the collection back, so `save` followed by `load` loses
//! nothing.

use vstd::arithmetic::div_mod::lemma_fundamental_div_mod;
use vstd::prelude::*;

use crate::codec::{
    spec_expect, spec_parse_bool, spec_parse_opt,
    dec_i64, dec_of, digit_char, digit_val, enc_bool, enc_more, enc_opt, enc_task, esc_char,
    is_digit, spec_encode, spec_escape, spec_parse_digits, spec_parse_doc, spec_parse_i64,
    spec_parse_number, spec_parse_string, spec_parse_task, spec_parse_tasks_rest,
};
use crate::store::{contains_id, ids_increasing, is_first_id_pos, next_id, unique_ids};
use crate::task::TaskSpec;

verus! {

// ---------------------------------------------------------------------------
// Identifier laws.
// ---------------------------------------------------------------------------
/// Strictly increasing identifiers are pairwise distinct: a collection built
/// by `add_task` alone never repeats an id.
pub proof fn lemma_increasing_ids_unique(s: Seq<TaskSpec>)
    requires
        ids_increasing(s),
    ensures
        unique_ids(s),
{
}

/// Appending a task with the store's next id keeps the identifiers strictly
/// increasing: any sequence of `add` calls alone yields unique ids.
pub proof fn lemma_add_keeps_ids_increasing(s: Seq<TaskSpec>, t: TaskSpec)
    requires
        ids_increasing(s),
        t.id == next_id(s),
    ensures
        ids_increasing(s.push(t)),
        unique_ids(s.push(t)),
{
    let u = s.push(t);
    assert forall|i: int, j: int| 0 <= i < j < u.len() implies u[i].id < u[j].id by {
        if j < s.len() {
        } else {
            assert(u[j] == t);
            if i < s.len() - 1 {
                assert(s[i].id < s[s.len() - 1].id);
            }
        }
    }
    lemma_increasing_ids_unique(u);
}

/// Removing the first task with a unique id removes exactly one task and
/// leaves no task with that id, so removing the same id again finds nothing.
pub proof fn lemma_remove_leaves_id_gone(s: Seq<TaskSpec>, id: u64, p: int)
    requires
        unique_ids(s),
        is_first_id_pos(s, id, p),
    ensures
        s.remove(p).len() == s.len() - 1,
        !contains_id(s.remove(p), id),
{
    let r = s.remove(p);
    assert forall|k: int| 0 <= k < r.len() implies r[k].id != id by {
        if k < p {
            assert(r[k] == s[k]);
        } else {
            assert(r[k] == s[k + 1]);
            assert(s[p].id != s[k + 1].id);
        }
    }
}

// ---------------------------------------------------------------------------
// Decimal numbers parse back to their value.
// ---------------------------------------------------------------------------
/// Ten to the `k`th.
pub open spec fn pow10(k: nat) -> nat
    decreases k,
{
    if k == 0 {
        1
    } else {
        10 * pow10((k - 1) as nat)
    }
}

proof fn lemma_pow10_pos(k: nat)
    ensures
        pow10(k) >= 1,
    decreases k,
{
    if k > 0 {
        lemma_pow10_pos((k - 1) as nat);
    }
}

/// Every character of a decimal rendering is a digit, and there is at least
/// one.
proof fn lemma_dec_digits(n: nat)
    ensures
        dec_of(n).len() >= 1,
        forall|k: int| 0 <= k < dec_of(n).len() ==> is_digit(#[trigger] dec_of(n)[k]),
    decreases n,
{
    if n >= 10 {
        lemma_dec_digits(n / 10);
        let d = dec_of(n);
        let dm = dec_of(n / 10);
        assert forall|k: int| 0 <= k < d.len() implies is_digit(#[trigger] d[k]) by {
            if k < dm.len() {
                assert(d[k] == dm[k]);
            } else {
                assert(d[k] == digit_char(n % 10));
            }
        }
    }
}

/// Reading the digits of `n` from a text advances past them and accumulates
/// exactly `n` onto the value read so far.
proof fn lemma_parse_digits_of_dec(s: Seq<char>, i: int, acc: int, n: nat, max: int)
    requires
        0 <= i,
        i + dec_of(n).len() <= s.len(),
        forall|k: int| 0 <= k < dec_of(n).len() ==> s[i + k] == #[trigger] dec_of(n)[k],
        acc >= 0,
        acc * pow10(dec_of(n).len()) + n <= max,
    ensures
        spec_parse_digits(s, i, acc, max) == spec_parse_digits(
            s,
            i + dec_of(n).len(),
            acc * pow10(dec_of(n).len()) + n,
            max,
        ),
    decreases n,
{
    let d = dec_of(n);
    let ln = d.len();
    lemma_pow10_pos(ln);
    if n < 10 {
        assert(d == seq![digit_char(n)]);
        assert(d[0] == digit_char(n));
        assert(s[i + 0] == d[0]);
        assert(s[i] == digit_char(n));
        assert(is_digit(s[i]));
        assert(digit_val(s[i]) == n);
        assert(pow10(1) == 10 * pow10(0));
        assert(acc * pow10(1) == acc * 10) by (nonlinear_arith)
            requires
                pow10(1) == 10,
        ;
        assert(spec_parse_digits(s, i, acc, max) == spec_parse_digits(s, i + 1, acc * 10 + n, max));
    } else {
        let m = n / 10;
        let r = n % 10;
        let dm = dec_of(m);
        let lm = dm.len();
        assert(d == dm.push(digit_char(r)));
        assert(ln == lm + 1);
        lemma_fundamental_div_mod(n as int, 10);
        assert(n == 10 * m + r);
        assert(pow10(ln) == 10 * pow10(lm));
        let a2 = acc * pow10(lm) + m;
        assert(a2 * 10 + r == acc * pow10(ln) + n) by (nonlinear_arith)
            requires
                pow10(ln) == 10 * pow10(lm),
                n == 10 * m + r,
                a2 == acc * pow10(lm) + m,
        ;
        assert(a2 >= 0) by (nonlinear_arith)
            requires
                acc >= 0,
                pow10(lm) >= 1,
                m >= 0,
                a2 == acc * pow10(lm) + m,
        ;
        assert(a2 <= a2 * 10 + r) by (nonlinear_arith)
            requires
                a2 >= 0,
                r >= 0,
        ;
        assert forall|k: int| 0 <= k < lm implies s[i + k] == #[trigger] dm[k] by {
            assert(s[i + k] == d[k]);
            assert(d[k] == dm[k]);
        }
        lemma_parse_digits_of_dec(s, i, acc, m, max);
        assert(s[i + lm] == d[lm as int]);
        assert(s[i + lm] == digit_char(r));
        assert(is_digit(s[i + lm]));
        assert(digit_val(s[i + lm]) == r);
        assert(spec_parse_digits(s, i + lm, a2, max) == spec_parse_digits(
            s,
            i + lm + 1,
            a2 * 10 + r,
            max,
        ));
    }
}

/// An encoded unsigned number, followed by a non-digit, parses back to its
/// value.
proof fn lemma_parse_number_of_dec(s: Seq<char>, i: int, n: nat, max: int)
    requires
        0 <= i,
        i + dec_of(n).len() < s.len(),
        forall|k: int| 0 <= k < dec_of(n).len() ==> s[i + k] == #[trigger] dec_of(n)[k],
        !is_digit(s[i + dec_of(n).len()]),
        n <= max,
    ensures
        spec_parse_number(s, i, max) == Some((n as int, i + dec_of(n).len())),
{
    let ln = dec_of(n).len();
    lemma_dec_digits(n);
    lemma_pow10_pos(ln);
    assert(s[i] == dec_of(n)[0]);
    assert(is_digit(s[i]));
    assert(0 * pow10(ln) + n <= max);
    lemma_parse_digits_of_dec(s, i, 0, n, max);
    assert(spec_parse_digits(s, i + ln, n as int, max) == Some((n as int, i + ln)));
}

/// A digit character is not a minus sign and not a letter the other tokens
/// start with.
proof fn lemma_digit_shape(c: char)
    requires
        is_digit(c),
    ensures
        c != '-' && c != 'n' && c != 't' && c != 'f' && c != '"' && c != ',' && c != '\n',
{
}

/// An encoded signed number, followed by a non-digit, parses back to its
/// value.
proof fn lemma_parse_i64_of_enc(s: Seq<char>, i: int, v: int)
    requires
        -9223372036854775808 <= v <= 9223372036854775807,
        0 <= i,
        i + dec_i64(v).len() < s.len(),
        forall|k: int| 0 <= k < dec_i64(v).len() ==> s[i + k] == #[trigger] dec_i64(v)[k],
        !is_digit(s[i + dec_i64(v).len()]),
    ensures
        spec_parse_i64(s, i) == Some((v, i + dec_i64(v).len())),
{
    if v >= 0 {
        lemma_dec_digits(v as nat);
        assert(s[i] == dec_of(v as nat)[0]);
        assert(is_digit(s[i]));
        lemma_digit_shape(s[i]);
        lemma_parse_number_of_dec(s, i, v as nat, 9223372036854775807);
    } else {
        let m = (-v) as nat;
        let dm = dec_of(m);
        assert(dec_i64(v) == seq!['-'] + dm);
        assert(dec_i64(v).len() == 1 + dm.len());
        assert(s[i] == dec_i64(v)[0]);
        assert(s[i] == '-');
        assert forall|k: int| 0 <= k < dm.len() implies s[i + 1 + k] == #[trigger] dm[k] by {
            assert(s[i + 1 + k] == dec_i64(v)[1 + k]);
        }
        assert(!is_digit(s[i + 1 + dm.len()]));
        lemma_parse_number_of_dec(s, i + 1, m, 9223372036854775808);
        assert(spec_parse_number(s, i + 1, 9223372036854775808) == Some((m as int, i + 1 + dm.len())));
        assert(-(m as int) == v);
    }
}

// ---------------------------------------------------------------------------
// Escaped strings parse back to their text.
// ---------------------------------------------------------------------------
/// An escaped description followed by its closing quote parses back to the
/// description, appended to whatever was read before.
proof fn lemma_parse_string_of_escape(s: Seq<char>, i: int, d: Seq<char>, acc: Seq<char>)
    requires
        0 <= i,
        i + spec_escape(d).len() + 1 <= s.len(),
        forall|k: int| 0 <= k < spec_escape(d).len() ==> s[i + k] == #[trigger] spec_escape(d)[k],
        s[i + spec_escape(d).len()] == '"',
    ensures
        spec_parse_string(s, i, acc) == Some((acc + d, i + spec_escape(d).len() + 1)),
    decreases d.len(),
{
    if d.len() == 0 {
        assert(spec_escape(d).len() == 0);
        assert(s[i] == '"');
        assert(acc + d =~= acc);
    } else {
        let c = d.first();
        let rest = d.drop_first();
        let ec = esc_char(c);
        assert(spec_escape(d) == ec + spec_escape(rest));
        let le = ec.len();
        assert forall|k: int| 0 <= k < le implies s[i + k] == ec[k] by {
            assert(s[i + k] == spec_escape(d)[k]);
        }
        assert forall|k: int| 0 <= k < spec_escape(rest).len() implies s[i + le + k]
            == #[trigger] spec_escape(rest)[k] by {
            assert(s[i + le + k] == spec_escape(d)[le + k]);
        }
        assert(s[i + le + spec_escape(rest).len()] == '"');
        lemma_parse_string_of_escape(s, i + le, rest, acc.push(c));
        if c == '"' {
            assert(s[i] == '\\' && s[i + 1] == '"');
            assert(spec_parse_string(s, i, acc) == spec_parse_string(s, i + 2, acc.push(c)));
        } else if c == '\\' {
            assert(s[i] == '\\' && s[i + 1] == '\\');
            assert(spec_parse_string(s, i, acc) == spec_parse_string(s, i + 2, acc.push(c)));
        } else if c == '\n' {
            assert(s[i] == '\\' && s[i + 1] == 'n');
            assert(spec_parse_string(s, i, acc) == spec_parse_string(s, i + 2, acc.push(c)));
        } else if c == '\r' {
            assert(s[i] == '\\' && s[i + 1] == 'r');
            assert(spec_parse_string(s, i, acc) == spec_parse_string(s, i + 2, acc.push(c)));
        } else if c == '\t' {
            assert(s[i] == '\\' && s[i + 1] == 't');
            assert(spec_parse_string(s, i, acc) == spec_parse_string(s, i + 2, acc.push(c)));
        } else {
            assert(ec[0] == c);
            assert(s[i + 0] == ec[0]);
            assert(s[i] == c);
            assert(spec_parse_string(s, i, acc) == spec_parse_string(s, i + 1, acc.push(c)));
        }
        assert(acc.push(c) + rest =~= acc + d);
    }
}

// ---------------------------------------------------------------------------
// Encoded tasks and documents parse back.
// ---------------------------------------------------------------------------
/// A token standing at `i` is found there.
proof fn lemma_expect_at(s: Seq<char>, i: int, tok: Seq<char>)
    requires
        0 <= i,
        i + tok.len() <= s.len(),
        forall|k: int| 0 <= k < tok.len() ==> s[i + k] == #[trigger] tok[k],
    ensures
        spec_expect(s, i, tok) == Some(i + tok.len()),
{
    assert(s.subrange(i, i + tok.len()) =~= tok);
}

/// A token whose first character is not at `i` is not found there.
proof fn lemma_expect_fail(s: Seq<char>, i: int, tok: Seq<char>)
    requires
        0 <= i < s.len(),
        tok.len() >= 1,
        s[i] != tok[0],
    ensures
        spec_expect(s, i, tok) is None,
{
    if i + tok.len() <= s.len() {
        assert(s.subrange(i, i + tok.len())[0] == s[i]);
        assert(s.subrange(i, i + tok.len()) != tok);
    }
}

/// An encoded task standing at `i` parses back to the task.
#[verifier::rlimit(100)]
proof fn lemma_parse_task_of_enc(s: Seq<char>, i: int, t: TaskSpec)
    requires
        0 <= i,
        i + enc_task(t).len() <= s.len(),
        forall|k: int| 0 <= k < enc_task(t).len() ==> s[i + k] == #[trigger] enc_task(t)[k],
    ensures
        spec_parse_task(s, i) == Some((t, i + enc_task(t).len())),
{
    reveal_strlit("  {\n    \"id\": ");
    reveal_strlit(",\n    \"description\": \"");
    reveal_strlit("\"");
    reveal_strlit(",\n    \"completed\": ");
    reveal_strlit("true");
    reveal_strlit("false");
    reveal_strlit(",\n    \"created_at\": ");
    reveal_strlit(",\n    \"completed_at\": ");
    reveal_strlit("null");
    reveal_strlit("\n  }");
    let e = enc_task(t);
    let t1 = "  {\n    \"id\": "@;
    let d1 = dec_of(t.id as nat);
    let t2 = ",\n    \"description\": \""@;
    let d2 = spec_escape(t.description);
    let q2 = "\""@;
    let t3 = ",\n    \"completed\": "@;
    let d3 = enc_bool(t.completed);
    let t4 = ",\n    \"created_at\": "@;
    let d4 = dec_i64(t.created_at as int);
    let t5 = ",\n    \"completed_at\": "@;
    let d5 = enc_opt(t.completed_at);
    let t6 = "\n  }"@;
    let o1 = i + t1.len();
    let o2 = o1 + d1.len();
    let o3 = o2 + t2.len();
    let o4 = o3 + d2.len();
    let o5 = o4 + 1;
    let o6 = o5 + t3.len();
    let o7 = o6 + d3.len();
    let o8 = o7 + t4.len();
    let o9 = o8 + d4.len();
    let o10 = o9 + t5.len();
    let o11 = o10 + d5.len();
    let o12 = o11 + t6.len();
    assert(e.len() == t1.len() + d1.len() + t2.len() + d2.len() + 1 + t3.len() + d3.len()
        + t4.len() + d4.len() + t5.len() + d5.len() + t6.len());
    assert(o12 == i + e.len());
    // The id key.
    assert forall|k: int| 0 <= k < t1.len() implies s[i + k] == t1[k] by {
        assert(s[i + k] == e[k]);
    }
    lemma_expect_at(s, i, t1);
    // The id digits, ended by the comma of the next key.
    assert forall|k: int| 0 <= k < d1.len() implies s[o1 + k] == #[trigger] d1[k] by {
        assert(s[i + (o1 - i + k)] == e[o1 - i + k]);
    }
    assert(s[i + (o2 - i)] == e[o2 - i]);
    assert(s[o2] == t2[0]);
    assert(s[o2] == ',');
    lemma_parse_number_of_dec(s, o1, t.id as nat, 18446744073709551615);
    // The description key.
    assert forall|k: int| 0 <= k < t2.len() implies s[o2 + k] == t2[k] by {
        assert(s[i + (o2 - i + k)] == e[o2 - i + k]);
    }
    lemma_expect_at(s, o2, t2);
    // The escaped description, ended by its closing quote.
    assert forall|k: int| 0 <= k < d2.len() implies s[o3 + k] == #[trigger] d2[k] by {
        assert(s[i + (o3 - i + k)] == e[o3 - i + k]);
    }
    assert(s[i + (o4 - i)] == e[o4 - i]);
    assert(s[o4] == q2[0]);
    assert(s[o4] == '"');
    lemma_parse_string_of_escape(s, o3, t.description, Seq::empty());
    assert(Seq::empty() + t.description =~= t.description);
    // The completed key.
    assert forall|k: int| 0 <= k < t3.len() implies s[o5 + k] == t3[k] by {
        assert(s[i + (o5 - i + k)] == e[o5 - i + k]);
    }
    lemma_expect_at(s, o5, t3);
    // true or false.
    assert forall|k: int| 0 <= k < d3.len() implies s[o6 + k] == #[trigger] d3[k] by {
        assert(s[i + (o6 - i + k)] == e[o6 - i + k]);
    }
    if t.completed {
        lemma_expect_at(s, o6, "true"@);
    } else {
        assert(s[o6 + 0] == d3[0]);
        assert(s[o6] == 'f');
        lemma_expect_fail(s, o6, "true"@);
        lemma_expect_at(s, o6, "false"@);
    }
    assert(spec_parse_bool(s, o6) == Some((t.completed, o7)));
    // The created_at key.
    assert forall|k: int| 0 <= k < t4.len() implies s[o7 + k] == t4[k] by {
        assert(s[i + (o7 - i + k)] == e[o7 - i + k]);
    }
    lemma_expect_at(s, o7, t4);
    // The creation time, ended by the comma of the next key.
    assert forall|k: int| 0 <= k < d4.len() implies s[o8 + k] == #[trigger] d4[k] by {
        assert(s[i + (o8 - i + k)] == e[o8 - i + k]);
    }
    assert(s[i + (o9 - i)] == e[o9 - i]);
    assert(s[o9] == t5[0]);
    assert(s[o9] == ',');
    lemma_parse_i64_of_enc(s, o8, t.created_at as int);
    // The completed_at key.
    assert forall|k: int| 0 <= k < t5.len() implies s[o9 + k] == t5[k] by {
        assert(s[i + (o9 - i + k)] == e[o9 - i + k]);
    }
    lemma_expect_at(s, o9, t5);
    // null or the completion time, ended by the newline of the closing brace.
    assert forall|k: int| 0 <= k < d5.len() implies s[o10 + k] == #[trigger] d5[k] by {
        assert(s[i + (o10 - i + k)] == e[o10 - i + k]);
    }
    assert(s[i + (o11 - i)] == e[o11 - i]);
    assert(s[o11] == t6[0]);
    assert(s[o11] == '\n');
    match t.completed_at {
        None => {
            lemma_expect_at(s, o10, "null"@);
            assert(spec_parse_opt(s, o10) == Some((None::<i64>, o11)));
        },
        Some(v) => {
            assert(s[o10 + 0] == d5[0]);
            if v >= 0 {
                lemma_dec_digits(v as nat);
                assert(d5[0] == dec_of(v as nat)[0]);
                lemma_digit_shape(d5[0]);
            } else {
                assert(d5[0] == (seq!['-'] + dec_of((-(v as int)) as nat))[0]);
                assert(d5[0] == '-');
            }
            assert(s[o10] != 'n');
            lemma_expect_fail(s, o10, "null"@);
            lemma_parse_i64_of_enc(s, o10, v as int);
            assert(spec_parse_opt(s, o10) == Some((Some(v), o11)));
        },
    }
    // The closing brace.
    assert forall|k: int| 0 <= k < t6.len() implies s[o11 + k] == t6[k] by {
        assert(s[i + (o11 - i + k)] == e[o11 - i + k]);
    }
    lemma_expect_at(s, o11, t6);
    assert(spec_parse_task(s, i) == Some((t, o12)));
}

/// What a non-empty document holds after the opening bracket: the first
/// task, then the rest.
pub open spec fn enc_rest(r: Seq<TaskSpec>) -> Seq<char> {
    enc_task(r.first()) + enc_more(r.drop_first())
}

/// The encoded tasks of a non-empty document parse back to those tasks,
/// appended to whatever was parsed before.
proof fn lemma_parse_rest_of_enc(s: Seq<char>, i: int, acc: Seq<TaskSpec>, r: Seq<TaskSpec>)
    requires
        r.len() >= 1,
        0 <= i,
        i + enc_rest(r).len() <= s.len(),
        forall|k: int| 0 <= k < enc_rest(r).len() ==> s[i + k] == #[trigger] enc_rest(r)[k],
    ensures
        spec_parse_tasks_rest(s, i, acc) == Some((acc + r, i + enc_rest(r).len())),
    decreases r.len(),
{
    reveal_strlit(",\n");
    reveal_strlit("\n]");
    let t0 = r.first();
    let dr = r.drop_first();
    let e = enc_rest(r);
    let l0 = enc_task(t0).len();
    let em = enc_more(dr);
    assert(e == enc_task(t0) + em);
    assert forall|k: int| 0 <= k < l0 implies s[i + k] == #[trigger] enc_task(t0)[k] by {
        assert(s[i + k] == e[k]);
    }
    lemma_parse_task_of_enc(s, i, t0);
    let j = i + l0;
    assert forall|k: int| 0 <= k < em.len() implies s[j + k] == #[trigger] em[k] by {
        assert(s[i + (l0 + k)] == e[l0 + k]);
    }
    if r.len() == 1 {
        assert(dr.len() == 0);
        assert(em == "\n]"@);
        assert(s[j + 0] == em[0]);
        assert(s[j] == '\n');
        lemma_expect_fail(s, j, ",\n"@);
        lemma_expect_at(s, j, "\n]"@);
        assert(r =~= seq![t0]);
        assert(acc.push(t0) =~= acc + r);
        assert(spec_parse_tasks_rest(s, i, acc) == Some((acc.push(t0), j + 2)));
    } else {
        assert(dr.len() >= 1);
        assert(em == ",\n"@ + enc_task(dr.first()) + enc_more(dr.drop_first()));
        assert forall|k: int| 0 <= k < 2 implies s[j + k] == (",\n"@)[k] by {
            assert(s[j + k] == em[k]);
        }
        lemma_expect_at(s, j, ",\n"@);
        let k0 = j + 2;
        let er = enc_rest(dr);
        assert(dr.drop_first() =~= r.drop_first().drop_first());
        assert(er == enc_task(dr.first()) + enc_more(dr.drop_first()));
        assert(em.len() == 2 + er.len());
        assert forall|k: int| 0 <= k < er.len() implies s[k0 + k] == #[trigger] er[k] by {
            assert(s[j + (2 + k)] == em[2 + k]);
            assert(em[2 + k] == er[k]);
        }
        lemma_parse_rest_of_enc(s, k0, acc.push(t0), dr);
        assert(acc.push(t0) + dr =~= acc + r);
        assert(spec_parse_tasks_rest(s, k0, acc.push(t0)) == Some((acc + r, k0 + er.len())));
        assert(k0 + er.len() == i + e.len());
    }
}

/// The codec round trip: parsing an encoded collection gives exactly that
/// collection back, whatever it holds. `save` then `load` is lossless.
pub proof fn lemma_encode_parse_round_trip(ts: Seq<TaskSpec>)
    ensures
        spec_parse_doc(spec_encode(ts)) == Some(ts),
{
    let s = spec_encode(ts);
    if ts.len() == 0 {
        reveal_strlit("[]");
        assert(s.len() == 2);
        assert(ts =~= Seq::<TaskSpec>::empty());
    } else {
        reveal_strlit("[]");
        reveal_strlit("[\n");
        reveal_strlit("  {\n    \"id\": ");
        let er = enc_rest(ts);
        assert(s == "[\n"@ + enc_task(ts.first()) + enc_more(ts.drop_first()));
        assert(s =~= "[\n"@ + er);
        assert(enc_task(ts.first()).len() >= "  {\n    \"id\": "@.len());
        assert(s.len() > 2);
        assert forall|k: int| 0 <= k < 2 implies s[0 + k] == ("[\n"@)[k] by {
            assert(s[k] == ("[\n"@ + er)[k]);
        }
        lemma_expect_at(s, 0, "[\n"@);
        assert forall|k: int| 0 <= k < er.len() implies s[2 + k] == #[trigger] er[k] by {
            assert(s[2 + k] == ("[\n"@ + er)[2 + k]);
        }
        lemma_parse_rest_of_enc(s, 2, Seq::empty(), ts);
        assert(Seq::empty() + ts =~= ts);
        assert(spec_parse_tasks_rest(s, 2, Seq::empty()) == Some((ts, s.len() as int)));
    }
}

/// Adding a task and then loading a fresh store from the saved text yields
/// the old collection with the added task at its end, fields intact.
pub proof fn lemma_add_then_load(s: Seq<TaskSpec>, t: TaskSpec)
    ensures
        spec_parse_doc(spec_encode(s.push(t))) == Some(s.push(t)),
        s.push(t).last() == t,
{
    lemma_encode_parse_round_trip(s.push(t));
}

} // verus!
