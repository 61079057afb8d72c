//! Jira-style durations such as `1d 2h 30m`: reading, writing and rounding.

use vstd::prelude::*;
use crate::text::{decimal, signed_decimal, push_decimal, push_signed_decimal, string_of, digits_value, all_digits, is_digit, int_literal, digit_char, chars_of, parse_i64, parse_i64_spec, split_words, trim, trim_chars, trim_end, trim_start, words, words_from, is_ws};

verus! {

/// Why a duration text was refused.
#[derive(Clone, Copy, Debug, PartialEq, Eq)]
pub enum DurationFault {
    /// A part is not a whole number followed by a unit letter.
    Format,
    /// A part has a negative amount.
    Negative,
    /// A part ends in a letter other than `d`, `h` or `m`.
    Unit,
    /// The total does not fit in an `i64`.
    TooLarge,
}

/// The message shown for each refusal.
pub open spec fn fault_message(f: DurationFault) -> Seq<char> {
    match f {
        DurationFault::Format => "時間は 2h 30m の形式で入力してください。"@,
        DurationFault::Negative => "時間に負の値は指定できません。"@,
        DurationFault::Unit => "時間の単位は d、h、m を使用してください。"@,
        DurationFault::TooLarge => "時間が大きすぎます。"@,
    }
}

pub fn fault_text(f: DurationFault) -> (s: String)
    ensures
        s@ == fault_message(f),
{
    match f {
        DurationFault::Format => "時間は 2h 30m の形式で入力してください。".to_owned(),
        DurationFault::Negative => "時間に負の値は指定できません。".to_owned(),
        DurationFault::Unit => "時間の単位は d、h、m を使用してください。".to_owned(),
        DurationFault::TooLarge => "時間が大きすぎます。".to_owned(),
    }
}

/// Seconds per unit letter: a working day is eight hours; zero for any other letter.
pub open spec fn unit_seconds(u: char) -> int {
    if u == 'd' {
        28800int
    } else if u == 'h' {
        3600int
    } else if u == 'm' {
        60int
    } else {
        0int
    }
}

/// The running total after one more part: the part's amount times its unit,
/// saturated at `i64::MAX`, added to the total with overflow refused.
pub open spec fn duration_step(acc: int, part: Seq<char>) -> Result<int, DurationFault> {
    match parse_i64_spec(part.drop_last()) {
        None => Err(DurationFault::Format),
        Some(amount) => if amount < 0 {
            Err(DurationFault::Negative)
        } else if unit_seconds(part.last()) == 0 {
            Err(DurationFault::Unit)
        } else {
            let product = if amount * unit_seconds(part.last()) > i64::MAX {
                i64::MAX as int
            } else {
                amount * unit_seconds(part.last())
            };
            if acc + product > i64::MAX {
                Err(DurationFault::TooLarge)
            } else {
                Ok(acc + product)
            }
        },
    }
}

/// The total of a list of parts, read left to right; the first refusal wins.
pub open spec fn duration_total(parts: Seq<Seq<char>>) -> Result<int, DurationFault>
    decreases parts.len(),
{
    if parts.len() == 0 {
        Ok(0)
    } else {
        match duration_total(parts.drop_last()) {
            Err(f) => Err(f),
            Ok(acc) => duration_step(acc, parts.last()),
        }
    }
}

/// The seconds a duration text stands for: the sum over its whitespace-separated parts.
pub open spec fn duration_seconds(s: Seq<char>) -> Result<int, DurationFault> {
    duration_total(words(trim(s)))
}

/// Whether a character is ASCII.
pub open spec fn is_ascii_char(c: char) -> bool {
    (c as u32) < 128
}

/// Texts whose every part ends in an ASCII character; on the others the unit
/// cannot be split off the part.
pub open spec fn parts_end_ascii(s: Seq<char>) -> bool {
    forall|i: int| 0 <= i < words(trim(s)).len() ==> is_ascii_char(#[trigger] words(trim(s))[i].last())
}

proof fn lemma_words_from_nonempty(s: Seq<char>, cur: Seq<char>)
    ensures
        forall|i: int| 0 <= i < words_from(s, cur).len() ==> #[trigger] words_from(s, cur)[i].len() > 0,
    decreases s.len(),
{
    if s.len() > 0 {
        if is_ws(s[0]) {
            lemma_words_from_nonempty(s.drop_first(), seq![]);
            let head: Seq<Seq<char>> = if cur.len() > 0 {
                seq![cur]
            } else {
                seq![]
            };
            let rest = words_from(s.drop_first(), seq![]);
            assert(words_from(s, cur) == head + rest);
            assert forall|i: int| 0 <= i < (head + rest).len() implies #[trigger] (head
                + rest)[i].len() > 0 by {
                if i >= head.len() {
                    assert((head + rest)[i] == rest[i - head.len()]);
                }
            }
        } else {
            lemma_words_from_nonempty(s.drop_first(), cur.push(s[0]));
            assert(words_from(s, cur) == words_from(s.drop_first(), cur.push(s[0])));
        }
    } else {
        if cur.len() > 0 {
            assert(words_from(s, cur) =~= seq![cur]);
        } else {
            assert(words_from(s, cur) =~= Seq::<Seq<char>>::empty());
        }
    }
}

proof fn lemma_total_err_prefix(parts: Seq<Seq<char>>, k: int, f: DurationFault)
    requires
        0 <= k <= parts.len(),
        duration_total(parts.take(k)) == Err::<int, DurationFault>(f),
    ensures
        duration_total(parts) == Err::<int, DurationFault>(f),
    decreases parts.len() - k,
{
    if k < parts.len() {
        assert(parts.take(k + 1).drop_last() =~= parts.take(k));
        lemma_total_err_prefix(parts, k + 1, f);
    } else {
        assert(parts.take(k) =~= parts);
    }
}

/// Whether every part of a duration text ends in an ASCII character, which
/// reading it needs to split the unit off.
pub fn duration_parts_ascii(value: &str) -> (r: bool)
    ensures
        r == parts_end_ascii(value@),
{
    let chars = chars_of(value);
    let t = trim_chars(&chars);
    let parts = split_words(&t);
    let ghost ws = words(trim(value@));
    proof {
        lemma_words_from_nonempty(t@, seq![]);
    }
    let mut i: usize = 0;
    while i < parts.len()
        invariant
            i <= parts.len(),
            parts@.map_values(|w: Vec<char>| w@) == ws,
            ws == words(trim(value@)),
            forall|k: int| 0 <= k < ws.len() ==> #[trigger] ws[k].len() > 0,
            forall|k: int| 0 <= k < i ==> is_ascii_char(#[trigger] ws[k].last()),
        decreases parts.len() - i,
    {
        let part = &parts[i];
        assert(part@ == ws[i as int]);
        assert(ws[i as int].len() > 0);
        let last = part[part.len() - 1];
        if (last as u32) >= 128 {
            assert(!is_ascii_char(ws[i as int].last()));
            return false;
        }
        i = i + 1;
    }
    true
}

/// Reads a Jira-style duration (`1d 2h 30m`, `90m`, empty for zero) as seconds.
pub fn parse_duration(value: &str) -> (r: Result<i64, String>)
    requires
        parts_end_ascii(value@),
    ensures
        match duration_seconds(value@) {
            Ok(total) => r matches Ok(x) && x == total,
            Err(f) => r matches Err(e) && e@ == fault_message(f),
        },
{
    let chars = chars_of(value);
    let t = trim_chars(&chars);
    let parts = split_words(&t);
    let ghost ws = words(trim(value@));
    proof {
        lemma_words_from_nonempty(t@, seq![]);
        assert(parts@.map_values(|w: Vec<char>| w@) == ws);
    }
    let mut seconds: i64 = 0;
    let mut i: usize = 0;
    while i < parts.len()
        invariant
            i <= parts.len(),
            parts@.map_values(|w: Vec<char>| w@) == ws,
            ws == words(trim(value@)),
            parts_end_ascii(value@),
            forall|k: int| 0 <= k < ws.len() ==> #[trigger] ws[k].len() > 0,
            duration_total(ws.take(i as int)) == Ok::<int, DurationFault>(seconds as int),
            0 <= seconds,
        decreases parts.len() - i,
    {
        let part = &parts[i];
        let ghost p = ws[i as int];
        assert(part@ == p);
        assert(p.len() > 0);
        assert(is_ascii_char(p.last()));
        assert(ws.take(i + 1).drop_last() =~= ws.take(i as int));
        assert(ws.take(i + 1).last() == p);
        let n = part.len() - 1;
        let mut number: Vec<char> = Vec::new();
        let mut j: usize = 0;
        while j < n
            invariant
                j <= n,
                n + 1 == part.len(),
                number@ == part@.take(j as int),
            decreases n - j,
        {
            number.push(part[j]);
            j = j + 1;
            assert(number@ =~= part@.take(j as int));
        }
        assert(number@ =~= p.drop_last());
        let unit = part[n];
        let amount = match parse_i64(&number) {
            Some(a) => a,
            None => {
                proof {
                lemma_total_err_prefix(ws, i + 1, DurationFault::Format);
            }
            return Err(fault_text(DurationFault::Format));
            },
        };
        if amount < 0 {
            proof {
                lemma_total_err_prefix(ws, i + 1, DurationFault::Negative);
            }
            return Err(fault_text(DurationFault::Negative));
        }
        let factor: i64 = if unit == 'd' {
            8 * 3600
        } else if unit == 'h' {
            3600
        } else if unit == 'm' {
            60
        } else {
            proof {
                lemma_total_err_prefix(ws, i + 1, DurationFault::Unit);
            }
            return Err(fault_text(DurationFault::Unit));
        };
        let product: i64 = if amount > i64::MAX / factor {
            assert(amount * factor > i64::MAX) by (nonlinear_arith)
                requires
                    amount > i64::MAX / factor,
                    factor > 0,
            ;
            i64::MAX
        } else {
            assert(amount * factor <= i64::MAX) by (nonlinear_arith)
                requires
                    amount <= i64::MAX / factor,
                    factor > 0,
                    amount >= 0,
            ;
            amount * factor
        };
        if seconds > i64::MAX - product {
            proof {
                lemma_total_err_prefix(ws, i + 1, DurationFault::TooLarge);
            }
            return Err(fault_text(DurationFault::TooLarge));
        }
        seconds = seconds + product;
        i = i + 1;
    }
    assert(ws.take(parts.len() as int) =~= ws);
    Ok(seconds)
}


/// Integer division rounding toward zero, as Rust's `/` on signed integers.
pub open spec fn tdiv(a: int, b: int) -> int {
    if a >= 0 {
        a / b
    } else {
        -((-a) / b)
    }
}

/// The remainder that goes with `tdiv`, as Rust's `%` on signed integers.
pub open spec fn trem(a: int, b: int) -> int {
    a - b * tdiv(a, b)
}

/// How a number of seconds is shown: whole hours and the remaining whole
/// minutes (`5h 30m`, `5h`, `30m`), `0h` for none.
pub open spec fn duration_text(seconds: Option<i64>) -> Seq<char> {
    match seconds {
        None => seq!['0', 'h'],
        Some(s) => {
            let h = tdiv(s as int, 3600);
            let m = tdiv(trem(s as int, 3600), 60);
            if h == 0 && m == 0 {
                seq!['0', 'h']
            } else if h == 0 {
                signed_decimal(m).push('m')
            } else if m == 0 {
                signed_decimal(h).push('h')
            } else {
                signed_decimal(h).push('h').push(' ') + signed_decimal(m).push('m')
            }
        },
    }
}

/// Shows a number of seconds as hours and minutes, dropping leftover seconds.
pub fn format_duration(seconds: Option<i64>) -> (r: String)
    ensures
        r@ == duration_text(seconds),
{
    let mut out: Vec<char> = Vec::new();
    match seconds {
        None => {
            out.push('0');
            out.push('h');
            assert(out@ =~= seq!['0', 'h']);
        },
        Some(s) => {
            let neg = s < 0;
            let a: u64 = if neg {
                (0i128 - s as i128) as u64
            } else {
                s as u64
            };
            let hu = a / 3600;
            let mu = (a % 3600) / 60;
            let h: i64 = if neg {
                0 - (hu as i64)
            } else {
                hu as i64
            };
            let m: i64 = if neg {
                0 - (mu as i64)
            } else {
                mu as i64
            };
            assert(h as int == tdiv(s as int, 3600));
            assert(trem(s as int, 3600) == if neg {
                -((a % 3600) as int)
            } else {
                (a % 3600) as int
            });
            assert(m as int == tdiv(trem(s as int, 3600), 60));
            if h == 0 && m == 0 {
                out.push('0');
                out.push('h');
                assert(out@ =~= seq!['0', 'h']);
            } else if h == 0 {
                push_signed_decimal(&mut out, m);
                out.push('m');
                assert(out@ =~= signed_decimal(m as int).push('m'));
            } else if m == 0 {
                push_signed_decimal(&mut out, h);
                out.push('h');
                assert(out@ =~= signed_decimal(h as int).push('h'));
            } else {
                push_signed_decimal(&mut out, h);
                out.push('h');
                out.push(' ');
                let ghost mid = out@;
                push_signed_decimal(&mut out, m);
                out.push('m');
                assert(out@ =~= signed_decimal(h as int).push('h').push(' ') + signed_decimal(
                    m as int,
                ).push('m'));
            }
        },
    }
    string_of(&out)
}

/// The whole minutes Jira is sent for a number of seconds: negative counts as
/// zero and any started minute counts in full.
pub open spec fn rounded_minutes(seconds: i64) -> int {
    let clamped = if seconds < 0 {
        0
    } else {
        seconds as int
    };
    let padded = if clamped + 59 > i64::MAX {
        i64::MAX as int
    } else {
        clamped + 59
    };
    padded / 60
}

/// The duration text sent to Jira: whole minutes, such as `2m`.
pub open spec fn jira_text(seconds: i64) -> Seq<char> {
    decimal(rounded_minutes(seconds) as nat).push('m')
}

/// Writes seconds as the whole-minute duration Jira accepts.
pub fn jira_duration(seconds: i64) -> (r: String)
    ensures
        r@ == jira_text(seconds),
{
    let clamped: i64 = if seconds < 0 {
        0
    } else {
        seconds
    };
    let padded: i64 = if clamped > i64::MAX - 59 {
        i64::MAX
    } else {
        clamped + 59
    };
    let minutes = padded / 60;
    let mut out: Vec<char> = Vec::new();
    push_decimal(&mut out, minutes as u64);
    out.push('m');
    assert(out@ =~= jira_text(seconds));
    string_of(&out)
}

proof fn lemma_decimal(n: nat)
    ensures
        decimal(n).len() >= 1,
        all_digits(decimal(n)),
        digits_value(decimal(n)) == n,
        forall|i: int| 0 <= i < decimal(n).len() ==> !is_ws(#[trigger] decimal(n)[i]),
        is_digit(decimal(n)[0]),
    decreases n,
{
    if n < 10 {
        assert((digit_char(n) as u32) as int == 48 + n);
        assert(decimal(n).drop_last() =~= Seq::<char>::empty());
        assert(digits_value(Seq::<char>::empty()) == 0);
        assert(decimal(n).last() == digit_char(n));
    } else {
        lemma_decimal(n / 10);
        let d = decimal(n / 10);
        let e = d.push(digit_char(n % 10));
        assert((digit_char(n % 10) as u32) as int == 48 + n % 10);
        assert(e.drop_last() =~= d);
        assert(digits_value(e) == digits_value(d) * 10 + n % 10);
        assert forall|i: int| 0 <= i < e.len() implies is_digit(#[trigger] e[i]) && !is_ws(
            e[i],
        ) by {
            if i < d.len() {
                assert(e[i] == d[i]);
            }
        }
    }
}

proof fn lemma_parse_decimal(n: nat)
    requires
        n <= i64::MAX,
    ensures
        parse_i64_spec(decimal(n)) == Some(n as int),
{
    lemma_decimal(n);
}

proof fn lemma_words_plain(x: Seq<char>, cur: Seq<char>)
    requires
        forall|i: int| 0 <= i < x.len() ==> !is_ws(#[trigger] x[i]),
        (cur + x).len() > 0,
    ensures
        words_from(x, cur) == seq![cur + x],
    decreases x.len(),
{
    if x.len() == 0 {
        assert(cur + x =~= cur);
    } else {
        assert(!is_ws(x[0]));
        assert(cur.push(x[0]) + x.drop_first() =~= cur + x);
        lemma_words_plain(x.drop_first(), cur.push(x[0]));
    }
}

proof fn lemma_words_split(x: Seq<char>, y: Seq<char>, cur: Seq<char>)
    requires
        forall|i: int| 0 <= i < x.len() ==> !is_ws(#[trigger] x[i]),
        (cur + x).len() > 0,
    ensures
        words_from(x + seq![' '] + y, cur) == seq![cur + x] + words_from(y, seq![]),
    decreases x.len(),
{
    let z = x + seq![' '] + y;
    if x.len() == 0 {
        assert(z[0] == ' ');
        assert(z.drop_first() =~= y);
        assert(cur + x =~= cur);
    } else {
        assert(z[0] == x[0]);
        assert(z.drop_first() =~= x.drop_first() + seq![' '] + y);
        assert(cur.push(x[0]) + x.drop_first() =~= cur + x);
        lemma_words_split(x.drop_first(), y, cur.push(x[0]));
    }
}

proof fn lemma_unit_part(n: nat, u: char)
    requires
        n <= i64::MAX,
        unit_seconds(u) > 0,
    ensures
        decimal(n).push(u).drop_last() == decimal(n),
        decimal(n).push(u).last() == u,
        parse_i64_spec(decimal(n).push(u).drop_last()) == Some(n as int),
        forall|i: int| 0 <= i < decimal(n).push(u).len() ==> !is_ws(#[trigger] decimal(n).push(u)[i]),
{
    lemma_parse_decimal(n);
    lemma_decimal(n);
    assert(decimal(n).push(u).drop_last() =~= decimal(n));
    assert forall|i: int| 0 <= i < decimal(n).push(u).len() implies !is_ws(
        #[trigger] decimal(n).push(u)[i],
    ) by {
        if i < decimal(n).len() {
            assert(decimal(n).push(u)[i] == decimal(n)[i]);
        }
    }
}

proof fn lemma_step_unit(acc: int, n: nat, u: char)
    requires
        n <= i64::MAX,
        unit_seconds(u) > 0,
        0 <= acc,
        acc + n * unit_seconds(u) <= i64::MAX,
    ensures
        duration_step(acc, decimal(n).push(u)) == Ok::<int, DurationFault>(acc + n * unit_seconds(u)),
{
    lemma_unit_part(n, u);
    assert(n * unit_seconds(u) >= 0) by (nonlinear_arith)
        requires
            unit_seconds(u) > 0,
    ;
}

proof fn lemma_total_one(p: Seq<char>)
    ensures
        duration_total(seq![p]) == duration_step(0, p),
{
    assert(seq![p].drop_last() =~= Seq::<Seq<char>>::empty());
    assert(duration_total(Seq::<Seq<char>>::empty()) == Ok::<int, DurationFault>(0));
}

proof fn lemma_total_two(p: Seq<char>, q: Seq<char>)
    ensures
        duration_total(seq![p, q]) == match duration_step(0, p) {
            Err(f) => Err(f),
            Ok(acc) => duration_step(acc, q),
        },
{
    assert(seq![p, q].drop_last() =~= seq![p]);
    lemma_total_one(p);
}

proof fn lemma_trim_plain(t: Seq<char>)
    requires
        t.len() > 0,
        !is_ws(t[0]),
        !is_ws(t.last()),
    ensures
        trim(t) == t,
{
}

/// Reading back what `format_duration` writes gives the seconds again, for
/// any non-negative number of whole minutes.
#[verifier::rlimit(30)]
pub proof fn law_duration_roundtrip(s: i64)
    requires
        s >= 0,
        s % 60 == 0,
    ensures
        duration_seconds(duration_text(Some(s))) == Ok::<int, DurationFault>(s as int),
        parts_end_ascii(duration_text(Some(s))),
{
    let h = tdiv(s as int, 3600);
    let m = tdiv(trem(s as int, 3600), 60);
    assert(h == s / 3600);
    assert(m == (s % 3600) / 60);
    assert(h * 3600 + m * 60 == s);
    let t = duration_text(Some(s));
    if h == 0 && m == 0 {
        assert(s == 0);
        lemma_unit_part(0, 'h');
        assert(t =~= decimal(0).push('h'));
        lemma_one_part(t, 0, 'h');
    } else if h == 0 {
        lemma_one_part(t, m as nat, 'm');
    } else if m == 0 {
        lemma_one_part(t, h as nat, 'h');
    } else {
        lemma_unit_part(h as nat, 'h');
        lemma_unit_part(m as nat, 'm');
        let p = decimal(h as nat).push('h');
        let q = decimal(m as nat).push('m');
        assert(t =~= p + seq![' '] + q);
        assert(t[0] == p[0]);
        assert(t.last() == q.last());
        lemma_trim_plain(t);
        assert(Seq::<char>::empty() + p =~= p);
        assert(Seq::<char>::empty() + q =~= q);
        lemma_words_split(p, q, seq![]);
        lemma_words_plain(q, seq![]);
        let ws = words(trim(t));
        assert(ws =~= seq![p, q]);
        lemma_total_two(p, q);
        lemma_step_unit(0, h as nat, 'h');
        lemma_step_unit(h * 3600, m as nat, 'm');
    }
}

pub proof fn lemma_one_part(t: Seq<char>, n: nat, u: char)
    requires
        t == decimal(n).push(u),
        unit_seconds(u) > 0,
        n * unit_seconds(u) <= i64::MAX,
    ensures
        duration_seconds(t) == Ok::<int, DurationFault>(n * unit_seconds(u)),
        parts_end_ascii(t),
{
    assert(n <= n * unit_seconds(u)) by (nonlinear_arith)
        requires
            unit_seconds(u) > 0,
    ;
    lemma_unit_part(n, u);
    lemma_trim_plain(t);
    assert(Seq::<char>::empty() + t =~= t);
    lemma_words_plain(t, seq![]);
    let ws = words(trim(t));
    assert(ws =~= seq![t]);
    lemma_total_one(t);
    lemma_step_unit(0, n, u);
}

/// The duration text sent to Jira reads back as the rounded-up whole minutes.
pub proof fn law_jira_duration_reads_back(seconds: i64)
    ensures
        duration_seconds(jira_text(seconds)) == Ok::<int, DurationFault>(60 * rounded_minutes(seconds)),
        parts_end_ascii(jira_text(seconds)),
{
    let n = rounded_minutes(seconds);
    assert(0 <= n <= i64::MAX / 60);
    lemma_one_part(jira_text(seconds), n as nat, 'm');
}

proof fn lemma_words_join(a: Seq<char>, b: Seq<char>, cur: Seq<char>)
    ensures
        words_from(a + seq![' '] + b, cur) == words_from(a, cur) + words_from(b, seq![]),
    decreases a.len(),
{
    let z = a + seq![' '] + b;
    let head: Seq<Seq<char>> = if cur.len() > 0 {
        seq![cur]
    } else {
        seq![]
    };
    if a.len() == 0 {
        assert(z[0] == ' ');
        assert(z.drop_first() =~= b);
        assert(words_from(a, cur) == head);
    } else if is_ws(a[0]) {
        assert(z[0] == a[0]);
        assert(z.drop_first() =~= a.drop_first() + seq![' '] + b);
        lemma_words_join(a.drop_first(), b, seq![]);
        assert(head + (words_from(a.drop_first(), seq![]) + words_from(b, seq![])) =~= (head
            + words_from(a.drop_first(), seq![])) + words_from(b, seq![]));
    } else {
        assert(z[0] == a[0]);
        assert(z.drop_first() =~= a.drop_first() + seq![' '] + b);
        lemma_words_join(a.drop_first(), b, cur.push(a[0]));
    }
}

proof fn lemma_words_trailing_ws(x: Seq<char>, w: char, cur: Seq<char>)
    requires
        is_ws(w),
    ensures
        words_from(x.push(w), cur) == words_from(x, cur),
    decreases x.len(),
{
    let head: Seq<Seq<char>> = if cur.len() > 0 {
        seq![cur]
    } else {
        seq![]
    };
    if x.len() == 0 {
        let xs = x.push(w);
        assert(xs.len() == 1 && xs[0] == w);
        assert(xs.drop_first() =~= Seq::<char>::empty());
        assert(words_from(Seq::<char>::empty(), seq![]) =~= Seq::<Seq<char>>::empty());
        assert(words_from(xs, cur) == head + words_from(xs.drop_first(), seq![]));
        assert(head + Seq::<Seq<char>>::empty() =~= head);
    } else {
        assert(x.push(w).drop_first() =~= x.drop_first().push(w));
        if is_ws(x[0]) {
            lemma_words_trailing_ws(x.drop_first(), w, seq![]);
        } else {
            lemma_words_trailing_ws(x.drop_first(), w, cur.push(x[0]));
        }
    }
}

proof fn lemma_words_trim_end(x: Seq<char>)
    ensures
        words(trim_end(x)) == words(x),
    decreases x.len(),
{
    if x.len() > 0 && is_ws(x.last()) {
        lemma_words_trim_end(x.drop_last());
        assert(x.drop_last().push(x.last()) =~= x);
        lemma_words_trailing_ws(x.drop_last(), x.last(), seq![]);
    }
}

proof fn lemma_words_trim_start(x: Seq<char>)
    ensures
        words(trim_start(x)) == words(x),
    decreases x.len(),
{
    if x.len() > 0 && is_ws(x[0]) {
        lemma_words_trim_start(x.drop_first());
        assert(Seq::<Seq<char>>::empty() + words_from(x.drop_first(), seq![]) =~= words_from(
            x.drop_first(),
            seq![],
        ));
    }
}

/// Trimming a text does not change its words.
proof fn lemma_words_trim(x: Seq<char>)
    ensures
        words(trim(x)) == words(x),
{
    lemma_words_trim_end(trim_start(x));
    lemma_words_trim_start(x);
}

/// The running total of parts read left to right from `acc`.
spec fn total_from(acc: int, parts: Seq<Seq<char>>) -> Result<int, DurationFault>
    decreases parts.len(),
{
    if parts.len() == 0 {
        Ok(acc)
    } else {
        match total_from(acc, parts.drop_last()) {
            Err(f) => Err(f),
            Ok(a) => duration_step(a, parts.last()),
        }
    }
}

proof fn lemma_total_from_zero(parts: Seq<Seq<char>>)
    ensures
        duration_total(parts) == total_from(0, parts),
    decreases parts.len(),
{
    if parts.len() > 0 {
        lemma_total_from_zero(parts.drop_last());
    }
}

proof fn lemma_total_from_append(acc: int, p: Seq<Seq<char>>, q: Seq<Seq<char>>)
    ensures
        total_from(acc, p + q) == match total_from(acc, p) {
            Err(f) => Err(f),
            Ok(a) => total_from(a, q),
        },
    decreases q.len(),
{
    if q.len() == 0 {
        assert(p + q =~= p);
    } else {
        assert((p + q).drop_last() =~= p + q.drop_last());
        lemma_total_from_append(acc, p, q.drop_last());
    }
}

/// A total read from zero, read again from `x`, is shifted by `x` when the
/// sum fits; each step only adds a non-negative amount.
proof fn lemma_total_from_shift(x: int, q: Seq<Seq<char>>, y: int)
    requires
        total_from(0, q) == Ok::<int, DurationFault>(y),
        0 <= x,
        x + y <= i64::MAX,
    ensures
        total_from(x, q) == Ok::<int, DurationFault>(x + y),
        0 <= y,
    decreases q.len(),
{
    if q.len() > 0 {
        let q0 = q.drop_last();
        let part = q.last();
        let y0 = total_from(0, q0)->Ok_0;
        assert(total_from(0, q0) is Ok);
        let amount = parse_i64_spec(part.drop_last())->0;
        let u = unit_seconds(part.last());
        assert(amount >= 0 && u > 0);
        assert(amount * u >= 0) by (nonlinear_arith)
            requires
                amount >= 0,
                u > 0,
        ;
        lemma_total_from_shift(x, q0, y0);
    }
}

/// Reading two durations written one after the other with a space between
/// gives the sum of their values, when that sum fits in `i64`; and when both
/// can be read (their parts end in ASCII characters), so can the joined text.
pub proof fn law_duration_sum(a: Seq<char>, b: Seq<char>, x: int, y: int)
    requires
        duration_seconds(a) == Ok::<int, DurationFault>(x),
        duration_seconds(b) == Ok::<int, DurationFault>(y),
        x + y <= i64::MAX,
    ensures
        duration_seconds(a + seq![' '] + b) == Ok::<int, DurationFault>(x + y),
        parts_end_ascii(a) && parts_end_ascii(b) ==> parts_end_ascii(a + seq![' '] + b),
{
    let t = a + seq![' '] + b;
    lemma_words_trim(t);
    lemma_words_trim(a);
    lemma_words_trim(b);
    lemma_words_join(a, b, seq![]);
    let wa = words(a);
    let wb = words(b);
    assert(words(trim(t)) == wa + wb);
    if parts_end_ascii(a) && parts_end_ascii(b) {
        assert forall|i: int| 0 <= i < words(trim(t)).len() implies is_ascii_char(
            #[trigger] words(trim(t))[i].last(),
        ) by {
            if i < wa.len() {
                assert((wa + wb)[i] == wa[i]);
                assert(words(trim(a))[i] == wa[i]);
            } else {
                assert((wa + wb)[i] == wb[i - wa.len()]);
                assert(words(trim(b))[i - wa.len()] == wb[i - wa.len()]);
            }
        }
    }
    lemma_total_from_zero(wa);
    lemma_total_from_zero(wb);
    lemma_total_from_zero(wa + wb);
    lemma_total_from_append(0, wa, wb);
    lemma_total_from_shift(0, wa, x);
    lemma_total_from_shift(x, wb, y);
}

} // verus!
