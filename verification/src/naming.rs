//! The canonical name of an episode file.
use vstd::prelude::*;
use vstd::string::StringExecFns;

verus! {

/// The character that stands for the digit `d`.
pub open spec fn digit_char(d: int) -> char {
    seq!['0', '1', '2', '3', '4', '5', '6', '7', '8', '9'][d]
}

/// The decimal digits of `n`, without leading zeros.
pub open spec fn decimal(n: nat) -> Seq<char>
    decreases n,
{
    if n < 10 {
        seq![digit_char(n as int)]
    } else {
        decimal(n / 10).push(digit_char((n % 10) as int))
    }
}

/// The decimal digits of `n`, padded with a zero to at least two digits.
pub open spec fn two_digits(n: nat) -> Seq<char> {
    if n < 10 {
        seq!['0', digit_char(n as int)]
    } else {
        decimal(n)
    }
}

/// The canonical name of an episode:
/// `<name>.S<season>E<episode>.<ext>`, season and episode with at least
/// two digits each.
pub open spec fn canonical_name(name: Seq<char>, season: nat, episode: nat, ext: Seq<char>) -> Seq<
    char,
> {
    name + seq!['.', 'S'] + two_digits(season) + seq!['E'] + two_digits(episode) + seq!['.'] + ext
}

/// A number has as many digits as it takes, and two digits at least when
/// padded.
pub proof fn lemma_digit_count(n: nat)
    ensures
        decimal(n).len() >= 1,
        n >= 10 ==> decimal(n).len() >= 2,
        two_digits(n).len() >= 2,
        two_digits(n).len() == 2 <==> n < 100,
    decreases n,
{
    if n >= 10 {
        lemma_digit_count(n / 10);
    }
}

/// The digit `d` as a string of one character.
fn digit_str(d: usize) -> (s: &'static str)
    requires
        d < 10,
    ensures
        s@ == seq![digit_char(d as int)],
{
    proof {
        reveal_strlit("0");
        reveal_strlit("1");
        reveal_strlit("2");
        reveal_strlit("3");
        reveal_strlit("4");
        reveal_strlit("5");
        reveal_strlit("6");
        reveal_strlit("7");
        reveal_strlit("8");
        reveal_strlit("9");
    }
    let s = match d {
        0 => "0",
        1 => "1",
        2 => "2",
        3 => "3",
        4 => "4",
        5 => "5",
        6 => "6",
        7 => "7",
        8 => "8",
        _ => "9",
    };
    assert(s@ =~= seq![digit_char(d as int)]);
    s
}

/// The decimal digits of `n`, without leading zeros.
pub fn decimal_string(n: usize) -> (s: String)
    ensures
        s@ == decimal(n as nat),
    decreases n,
{
    if n < 10 {
        String::from_str(digit_str(n))
    } else {
        let mut s = decimal_string(n / 10);
        s.append(digit_str(n % 10));
        assert(s@ =~= decimal(n as nat));
        s
    }
}

/// The decimal digits of `n`, padded with a zero to at least two digits.
pub fn two_digit_string(n: usize) -> (s: String)
    ensures
        s@ == two_digits(n as nat),
{
    if n < 10 {
        proof {
            reveal_strlit("0");
        }
        let mut s = String::from_str("0");
        s.append(digit_str(n));
        assert(s@ =~= two_digits(n as nat));
        s
    } else {
        decimal_string(n)
    }
}

/// The canonical name of episode `episode` of season `season` of the show
/// `name`, with the extension `ext`.
pub fn episode_file_name(name: &str, season: u8, episode: usize, ext: &str) -> (s: String)
    ensures
        s@ == canonical_name(name@, season as nat, episode as nat, ext@),
{
    proof {
        reveal_strlit(".S");
        reveal_strlit("E");
        reveal_strlit(".");
    }
    let mut s = String::from_str(name);
    s.append(".S");
    s.append(two_digit_string(season as usize).as_str());
    s.append("E");
    s.append(two_digit_string(episode).as_str());
    s.append(".");
    s.append(ext);
    assert(".S"@ =~= seq!['.', 'S']);
    assert("E"@ =~= seq!['E']);
    assert("."@ =~= seq!['.']);
    s
}

} // verus!
