use vstd::prelude::*;
use vstd::string::StringSliceAdditionalSpecFns;

verus! {

/// The per-position verdict a player sees for one guessed letter.
#[derive(Eq, PartialEq, Structural, Clone, Copy, Debug, Hash)]
pub enum Color {
    GREY,
    YELLOW,
    GREEN,
}

/// A well-formed word: exactly five lowercase ASCII letters, as bytes.
pub open spec fn wf_word(w: Seq<u8>) -> bool {
    w.len() == 5 && forall|i: int| 0 <= i < 5 ==> 97 <= #[trigger] w[i] <= 122
}

/// Every word of a candidate or guess list is well formed.
pub open spec fn wf_words(s: Seq<&str>) -> bool {
    forall|j: int| 0 <= j < s.len() ==> wf_word(#[trigger] s[j].spec_bytes())
}

/// The color a feedback digit ('0', '1' or '2') stands for.
pub open spec fn color_of_digit(b: u8) -> Color {
    if b == 48 {
        Color::GREY
    } else if b == 49 {
        Color::YELLOW
    } else {
        Color::GREEN
    }
}

/// Reads a guess word into its five bytes; rejects anything that is not
/// five lowercase ASCII letters.
pub fn parse_guess(guess: &str) -> (r: Option<[u8; 5]>)
    ensures
        match r {
            Some(a) => wf_word(guess.spec_bytes()) && a@ == guess.spec_bytes(),
            None => !wf_word(guess.spec_bytes()),
        },
{
    let b = guess.as_bytes();
    if b.len() != 5 {
        return None;
    }
    let mut res = [0u8; 5];
    let mut i: usize = 0;
    while i < 5
        invariant
            b@ == guess.spec_bytes(),
            b@.len() == 5,
            res@.len() == 5,
            i <= 5,
            forall|j: int| 0 <= j < i ==> 97 <= #[trigger] b@[j] <= 122,
            forall|j: int| 0 <= j < i ==> res@[j] == b@[j],
        decreases 5 - i,
    {
        let c = b[i];
        if c < 97 || c > 122 {
            return None;
        }
        res[i] = c;
        i = i + 1;
    }
    assert(res@ =~= guess.spec_bytes());
    Some(res)
}

/// Whether a feedback string is five digits, each `0`, `1` or `2`.
pub open spec fn wf_feedback_str(s: Seq<u8>) -> bool {
    s.len() == 5 && forall|i: int| 0 <= i < 5 ==> 48 <= #[trigger] s[i] <= 50
}

/// The five colors a well-formed feedback string spells out.
pub open spec fn feedback_of(s: Seq<u8>) -> Seq<Color> {
    Seq::new(5, |i| color_of_digit(s[i]))
}

/// Reads a feedback string of digits (`0` grey, `1` yellow, `2` green)
/// into the five colors; rejects any other shape.
pub fn parse_result(result: &str) -> (r: Option<[Color; 5]>)
    ensures
        match r {
            Some(a) => wf_feedback_str(result.spec_bytes()) && a@ == feedback_of(
                result.spec_bytes(),
            ),
            None => !wf_feedback_str(result.spec_bytes()),
        },
{
    let b = result.as_bytes();
    if b.len() != 5 {
        return None;
    }
    let mut res = [Color::GREY; 5];
    let mut i: usize = 0;
    while i < 5
        invariant
            b@ == result.spec_bytes(),
            b@.len() == 5,
            res@.len() == 5,
            i <= 5,
            forall|j: int| 0 <= j < i ==> 48 <= #[trigger] b@[j] <= 50,
            forall|j: int| 0 <= j < i ==> res@[j] == color_of_digit(#[trigger] b@[j]),
        decreases 5 - i,
    {
        let c = b[i];
        if c == 48 {
            res[i] = Color::GREY;
        } else if c == 49 {
            res[i] = Color::YELLOW;
        } else if c == 50 {
            res[i] = Color::GREEN;
        } else {
            return None;
        }
        i = i + 1;
    }
    assert(res@ =~= feedback_of(result.spec_bytes()));
    Some(res)
}

/// Compares two well-formed words by their letters.
pub fn word_eq(a: &str, b: &str) -> (r: bool)
    requires
        wf_word(a.spec_bytes()),
        wf_word(b.spec_bytes()),
    ensures
        r == (a.spec_bytes() == b.spec_bytes()),
{
    let ab = a.as_bytes();
    let bb = b.as_bytes();
    let mut i: usize = 0;
    while i < 5
        invariant
            ab@ == a.spec_bytes(),
            bb@ == b.spec_bytes(),
            ab@.len() == 5,
            bb@.len() == 5,
            i <= 5,
            forall|j: int| 0 <= j < i ==> ab@[j] == bb@[j],
        decreases 5 - i,
    {
        if ab[i] != bb[i] {
            assert(a.spec_bytes() != b.spec_bytes());
            return false;
        }
        i = i + 1;
    }
    assert(a.spec_bytes() =~= b.spec_bytes());
    true
}

} // verus!
