//! Text for the operating system: UTF-16 with a zero at its end, and the command that starts
//! the program at login.
use crate::text::{chars_of, extend_str, string_of};
use vstd::prelude::*;
use vstd::string::*;
use vstd::utf8::*;

verus! {

/// One character in UTF-16: one unit, or two for the planes above the first.
pub open spec fn utf16_char(c: char) -> Seq<u16> {
    let u = c as u32;
    if u < 0x1_0000 {
        seq![u as u16]
    } else {
        let v = u - 0x1_0000;
        seq![(0xD800 + v / 0x400) as u16, (0xDC00 + v % 0x400) as u16]
    }
}

/// A text in UTF-16.
pub open spec fn utf16(s: Seq<char>) -> Seq<u16>
    decreases s.len(),
{
    if s.len() == 0 {
        Seq::empty()
    } else {
        utf16(s.drop_last()) + utf16_char(s.last())
    }
}

/// A text in UTF-16 with a zero at its end.
pub fn wide(s: &str) -> (r: Vec<u16>)
    ensures
        r@ == utf16(s@).push(0u16),
{
    let c = chars_of(s);
    let mut r: Vec<u16> = Vec::new();
    let mut i: usize = 0;
    assert(c@.take(0) =~= Seq::<char>::empty());
    assert(r@ =~= Seq::<u16>::empty());
    while i < c.len()
        invariant
            i <= c.len(),
            r@ == utf16(c@.take(i as int)),
        decreases c.len() - i,
    {
        let x: char = c[i];
        let u: u32 = x as u32;
        let ghost was = r@;
        proof {
            assert(c@.take(i as int + 1).drop_last() =~= c@.take(i as int));
            char_is_scalar(x);
        }
        if u < 0x1_0000 {
            r.push(u as u16);
        } else {
            let v: u32 = u - 0x1_0000;
            assert(v / 0x400 < 0x400);
            r.push((0xD800 + v / 0x400) as u16);
            r.push((0xDC00 + v % 0x400) as u16);
        }
        assert(r@ =~= was + utf16_char(x));
        i = i + 1;
    }
    assert(c@.take(i as int) =~= c@);
    r.push(0);
    r
}

/// The command that is registered to run at login: the program's path in quotes, or a blank in
/// it would cut it short.
pub fn login_command(exe: &str) -> (r: String)
    ensures
        r@ == "\""@ + exe@ + "\""@,
{
    let mut o = chars_of("\"");
    extend_str(&mut o, exe);
    extend_str(&mut o, "\"");
    string_of(&o)
}

/// Whether turning the start at login off succeeded: what was not there to begin with is off.
pub fn turned_off(deleted: bool, still_there: bool) -> (r: bool)
    ensures
        r == (deleted || !still_there),
{
    deleted || !still_there
}

} // verus!
