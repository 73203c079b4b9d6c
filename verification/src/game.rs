use vstd::prelude::*;

verus! {

/// Inclusive lower bound of the range the secret number is drawn from.
pub const SECRET_MIN: u32 = 1;

/// Inclusive upper bound of the range the secret number is drawn from.
pub const SECRET_MAX: u32 = 100;

/// The three-way verdict on a guess against the secret number.
#[derive(Debug, Clone, Copy, PartialEq, Eq, Structural)]
pub enum Outcome {
    TooLow,
    TooHigh,
    Correct,
}

/// The two fatal errors of a run: the input stream could not be read,
/// or the line read was not an unsigned integer literal.
#[derive(Debug, Clone, Copy, PartialEq, Eq, Structural)]
pub enum GuessError {
    InputReadError,
    ParseError,
}

/// The verdict that standard integer ordering assigns to a guess.
pub open spec fn outcome_of(guess: int, secret: int) -> Outcome {
    if guess < secret {
        Outcome::TooLow
    } else if guess > secret {
        Outcome::TooHigh
    } else {
        Outcome::Correct
    }
}

/// Compare a parsed guess to the secret number.
pub fn evaluate(guess: u32, secret: u32) -> (r: Outcome)
    ensures
        r == outcome_of(guess as int, secret as int),
        (r == Outcome::TooLow) <==> guess < secret,
        (r == Outcome::TooHigh) <==> guess > secret,
        (r == Outcome::Correct) <==> guess == secret,
{
    if guess < secret {
        Outcome::TooLow
    } else if guess > secret {
        Outcome::TooHigh
    } else {
        Outcome::Correct
    }
}

/// ASCII whitespace: space, tab, line feed, carriage return, form feed.
pub open spec fn is_space(b: u8) -> bool {
    b == 32 || b == 9 || b == 10 || b == 13 || b == 12
}

/// ASCII decimal digit.
pub open spec fn is_digit(b: u8) -> bool {
    48 <= b <= 57
}

/// The line with leading whitespace removed.
pub open spec fn trim_front(s: Seq<u8>) -> Seq<u8>
    decreases s.len(),
{
    if s.len() > 0 && is_space(s[0]) {
        trim_front(s.drop_first())
    } else {
        s
    }
}

/// The line with trailing whitespace removed.
pub open spec fn trim_back(s: Seq<u8>) -> Seq<u8>
    decreases s.len(),
{
    if s.len() > 0 && is_space(s.last()) {
        trim_back(s.drop_last())
    } else {
        s
    }
}

/// The line with surrounding whitespace removed.
pub open spec fn trimmed(s: Seq<u8>) -> Seq<u8> {
    trim_back(trim_front(s))
}

/// Every byte of the sequence is an ASCII decimal digit.
pub open spec fn all_digits(s: Seq<u8>) -> bool {
    forall|k: int| 0 <= k < s.len() ==> is_digit(s[k])
}

/// The number that a sequence of decimal digits denotes, most
/// significant digit first.
pub open spec fn digits_value(s: Seq<u8>) -> int
    decreases s.len(),
{
    if s.len() == 0 {
        0
    } else {
        digits_value(s.drop_last()) * 10 + (s.last() - 48)
    }
}

/// A line parses as a guess exactly when, after trimming, it is a
/// nonempty run of decimal digits whose value fits in a `u32`.
pub open spec fn parse_ok(s: Seq<u8>) -> bool {
    &&& trimmed(s).len() > 0
    &&& all_digits(trimmed(s))
    &&& digits_value(trimmed(s)) <= u32::MAX
}

proof fn lemma_trim_front_exact(s: Seq<u8>, i: int)
    requires
        0 <= i <= s.len(),
        forall|k: int| 0 <= k < i ==> is_space(s[k]),
        i < s.len() ==> !is_space(s[i]),
    ensures
        trim_front(s) == s.subrange(i, s.len() as int),
    decreases i,
{
    if i == 0 {
        assert(s.subrange(0, s.len() as int) =~= s);
    } else {
        assert(is_space(s[0]));
        lemma_trim_front_exact(s.drop_first(), i - 1);
        assert(s.drop_first().subrange(i - 1, s.drop_first().len() as int) =~= s.subrange(
            i,
            s.len() as int,
        ));
    }
}

proof fn lemma_trim_back_exact(s: Seq<u8>, j: int)
    requires
        0 <= j <= s.len(),
        forall|k: int| j <= k < s.len() ==> is_space(s[k]),
        j > 0 ==> !is_space(s[j - 1]),
    ensures
        trim_back(s) == s.subrange(0, j),
    decreases s.len() - j,
{
    if j == s.len() {
        assert(s.subrange(0, j) =~= s);
    } else {
        assert(is_space(s.last()));
        lemma_trim_back_exact(s.drop_last(), j);
        assert(s.drop_last().subrange(0, j) =~= s.subrange(0, j));
    }
}

proof fn lemma_digits_value_nonneg(s: Seq<u8>)
    requires
        all_digits(s),
    ensures
        digits_value(s) >= 0,
    decreases s.len(),
{
    if s.len() > 0 {
        assert(all_digits(s.drop_last()));
        lemma_digits_value_nonneg(s.drop_last());
        assert(is_digit(s.last()));
    }
}

proof fn lemma_digits_value_prefix(s: Seq<u8>, j: int)
    requires
        all_digits(s),
        0 <= j <= s.len(),
    ensures
        digits_value(s) >= digits_value(s.subrange(0, j)),
    decreases s.len() - j,
{
    if j == s.len() {
        assert(s.subrange(0, j) =~= s);
    } else {
        lemma_digits_value_prefix(s, j + 1);
        let p = s.subrange(0, j + 1);
        assert(p.drop_last() =~= s.subrange(0, j));
        assert(p.last() == s[j]);
        assert(all_digits(s.subrange(0, j)));
        lemma_digits_value_nonneg(s.subrange(0, j));
        assert(is_digit(s[j]));
    }
}

fn space_byte(b: u8) -> (r: bool)
    ensures
        r == is_space(b),
{
    b == 32 || b == 9 || b == 10 || b == 13 || b == 12
}

fn digit_byte(b: u8) -> (r: bool)
    ensures
        r == is_digit(b),
{
    48 <= b && b <= 57
}

/// Trim surrounding whitespace and parse the line as an unsigned integer.
pub fn parse_guess(line: &[u8]) -> (r: Result<u32, GuessError>)
    ensures
        r is Ok <==> parse_ok(line@),
        r matches Ok(v) ==> v as int == digits_value(trimmed(line@)),
        r matches Err(e) ==> e == GuessError::ParseError,
{
    let n: usize = line.len();
    let mut start: usize = 0;
    while start < n && space_byte(line[start])
        invariant
            0 <= start <= n,
            n == line@.len(),
            forall|k: int| 0 <= k < start ==> is_space(line@[k]),
        decreases n - start,
    {
        start = start + 1;
    }
    let mut end: usize = n;
    while end > start && space_byte(line[end - 1])
        invariant
            start <= end <= n,
            n == line@.len(),
            forall|k: int| end <= k < n ==> is_space(line@[k]),
        decreases end,
    {
        end = end - 1;
    }
    proof {
        lemma_trim_front_exact(line@, start as int);
        lemma_trim_back_exact(
            line@.subrange(start as int, n as int),
            end as int - start as int,
        );
        assert(line@.subrange(start as int, n as int).subrange(0, end as int - start as int)
            =~= line@.subrange(start as int, end as int));
    }
    let ghost t = line@.subrange(start as int, end as int);
    assert(trimmed(line@) == t);
    if start == end {
        assert(t.len() == 0);
        return Err(GuessError::ParseError);
    }
    let mut value: u64 = 0;
    let mut i: usize = start;
    while i < end
        invariant
            start <= i <= end,
            end <= n,
            n == line@.len(),
            start < end,
            t == line@.subrange(start as int, end as int),
            trimmed(line@) == t,
            forall|k: int| start <= k < i ==> is_digit(line@[k]),
            value as int == digits_value(line@.subrange(start as int, i as int)),
            value <= u32::MAX as u64,
        decreases end - i,
    {
        let b = line[i];
        if !digit_byte(b) {
            proof {
                assert(t[i as int - start as int] == line@[i as int]);
                assert(!is_digit(t[i as int - start as int]));
            }
            return Err(GuessError::ParseError);
        }
        let d: u64 = (b - 48) as u64;
        let next: u64 = value * 10 + d;
        proof {
            let p = line@.subrange(start as int, i as int + 1);
            assert(p.drop_last() =~= line@.subrange(start as int, i as int));
            assert(p.last() == line@[i as int]);
        }
        if next > (u32::MAX as u64) {
            proof {
                if all_digits(t) {
                    lemma_digits_value_prefix(t, i as int + 1 - start as int);
                    assert(t.subrange(0, i as int + 1 - start as int) =~= line@.subrange(
                        start as int,
                        i as int + 1,
                    ));
                }
            }
            return Err(GuessError::ParseError);
        }
        value = next;
        i = i + 1;
    }
    proof {
        assert(line@.subrange(start as int, i as int) =~= t);
        assert forall|k: int| 0 <= k < t.len() implies is_digit(t[k]) by {
            assert(t[k] == line@[start as int + k]);
        }
    }
    Ok(value as u32)
}

/// The decision a run makes once the line read from input, or its
/// absence, is known: `None` stands for a stream that could not be read.
pub fn run_round(line: Option<&[u8]>, secret: u32) -> (r: Result<Outcome, GuessError>)
    ensures
        line is None ==> r == Err::<Outcome, GuessError>(GuessError::InputReadError),
        line matches Some(l) ==> {
            &&& parse_ok(l@) ==> r == Ok::<Outcome, GuessError>(
                outcome_of(digits_value(trimmed(l@)), secret as int),
            )
            &&& !parse_ok(l@) ==> r == Err::<Outcome, GuessError>(GuessError::ParseError)
        },
{
    match line {
        None => Err(GuessError::InputReadError),
        Some(l) => match parse_guess(l) {
            Ok(guess) => Ok(evaluate(guess, secret)),
            Err(e) => Err(e),
        },
    }
}

/// Relies on `rand::rng` and `rand::RngExt::random_range`: a draw from the
/// inclusive range handed to it, uniform over that range, lies within it.
#[verifier::external_body]
fn draw_secret() -> (s: u32)
    ensures
        SECRET_MIN <= s <= SECRET_MAX,
{
    rand::RngExt::random_range(&mut rand::rng(), SECRET_MIN..=SECRET_MAX)
}

/// One full run of the game without its input and output: draw a secret
/// number, evaluate the line read from standard input (`None` if the
/// stream could not be read), and report the secret with the verdict.
pub fn play(line: Option<&[u8]>) -> (r: Result<(u32, Outcome), GuessError>)
    ensures
        line is None ==> r == Err::<(u32, Outcome), GuessError>(GuessError::InputReadError),
        line matches Some(l) ==> {
            &&& !parse_ok(l@) ==> r == Err::<(u32, Outcome), GuessError>(GuessError::ParseError)
            &&& parse_ok(l@) ==> {
                &&& r is Ok
                &&& SECRET_MIN <= r->Ok_0.0 <= SECRET_MAX
                &&& r->Ok_0.1 == outcome_of(digits_value(trimmed(l@)), r->Ok_0.0 as int)
            }
        },
{
    let secret: u32 = draw_secret();
    match run_round(line, secret) {
        Ok(o) => Ok((secret, o)),
        Err(e) => Err(e),
    }
}

} // verus!
