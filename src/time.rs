//! Times of day, to the second.
use vstd::prelude::*;

verus! {

/// The decimal digit `d`.
pub open spec fn digit(d: int) -> char {
    seq!['0', '1', '2', '3', '4', '5', '6', '7', '8', '9'][d]
}

/// `n`, from 0 to 99, as two decimal digits.
pub open spec fn two_digits(n: int) -> Seq<char> {
    seq![digit(n / 10), digit(n % 10)]
}

/// A time of day, held as seconds since midnight.
#[derive(Clone, Copy, Debug, PartialEq, Eq, Structural)]
pub struct Time {
    secs: u32,
}

impl View for Time {
    type V = int;

    closed spec fn view(&self) -> int {
        self.secs as int
    }
}

/// The text of the digit `d`.
fn digit_text(d: u32) -> (r: &'static str)
    requires
        d < 10,
    ensures
        r@ == seq![digit(d as int)],
{
    proof {
        reveal_strlit("0");
        reveal_strlit("1");
        reveal_strlit("2");
        reveal_strlit("3");
        reveal_strlit("4");
        reveal_strlit("5");
        reveal_strlit("6");
        reveal_strlit("7");
        reveal_strlit("8");
        reveal_strlit("9");
    }
    let r = if d == 0 {
        "0"
    } else if d == 1 {
        "1"
    } else if d == 2 {
        "2"
    } else if d == 3 {
        "3"
    } else if d == 4 {
        "4"
    } else if d == 5 {
        "5"
    } else if d == 6 {
        "6"
    } else if d == 7 {
        "7"
    } else if d == 8 {
        "8"
    } else {
        "9"
    };
    assert(r@ =~= seq![digit(d as int)]);
    r
}

impl Time {
    #[verifier::type_invariant]
    pub closed spec fn inv(self) -> bool {
        self.secs < 86400
    }

    /// The time `hours:minutes:seconds`.
    pub fn from_hms(hours: u8, minutes: u8, seconds: u8) -> (r: Time)
        requires
            hours < 24,
            minutes < 60,
            seconds < 60,
        ensures
            r@ == 3600 * hours + 60 * minutes + seconds,
    {
        Time { secs: 3600 * hours as u32 + 60 * minutes as u32 + seconds as u32 }
    }

    /// Seconds since midnight.
    pub fn seconds(&self) -> (r: u32)
        ensures
            r == self@,
            r < 86400,
    {
        proof {
            use_type_invariant(self);
        }
        self.secs
    }

    /// This time as `HH:MM`.
    pub fn format(&self) -> (r: String)
        ensures
            r@ == two_digits(self@ / 3600) + seq![':'] + two_digits((self@ % 3600) / 60),
    {
        let s = self.seconds();
        let hours = s / 3600;
        let minutes = (s % 3600) / 60;
        let mut r = digit_text(hours / 10).to_owned();
        r.append(digit_text(hours % 10));
        proof {
            reveal_strlit(":");
        }
        r.append(":");
        r.append(digit_text(minutes / 10));
        r.append(digit_text(minutes % 10));
        assert(r@ =~= two_digits(self@ / 3600) + seq![':'] + two_digits((self@ % 3600) / 60));
        r
    }
}

} // verus!
