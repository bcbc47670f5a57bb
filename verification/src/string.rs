//! The contents of Lisp strings and of byte strings.
use vstd::prelude::*;
use vstd::string::StrSliceExecFns;

verus! {

/// `String::push` appends one character to the string and leaves the rest as
/// it was.
pub assume_specification[ std::string::String::push ](s: &mut std::string::String, c: char)
    ensures
        final(s)@ == old(s)@.push(c),
;

/// A Lisp string: a sequence of characters, measured in code points.
#[derive(Debug)]
pub struct LispStringInner {
    string: String,
}

impl View for LispStringInner {
    type V = Seq<char>;

    closed spec fn view(&self) -> Seq<char> {
        self.string@
    }
}

impl LispStringInner {
    /// The Lisp string with the text of `string`.
    pub fn from_string(string: String) -> (s: Self)
        ensures
            s@ == string@,
    {
        Self { string }
    }

    /// The code point at `idx`, or `None` past the end.
    pub fn get_char_at(&self, idx: usize) -> (c: Option<u32>)
        ensures
            idx < self@.len() ==> c == Some(self@[idx as int] as u32),
            idx >= self@.len() ==> c.is_none(),
    {
        if idx < self.string.as_str().unicode_len() {
            Some(self.string.as_str().get_char(idx) as u32)
        } else {
            None
        }
    }

    /// The number of code points.
    pub fn len(&self) -> (n: usize)
        ensures
            n == self@.len(),
    {
        self.string.as_str().unicode_len()
    }

    /// The text.
    pub fn as_str(&self) -> (s: &str)
        ensures
            s@ == self@,
    {
        self.string.as_str()
    }

    /// A copy of the string.
    pub fn duplicate(&self) -> (s: Self)
        ensures
            s@ == self@,
    {
        Self { string: self.string.clone() }
    }

    /// Whether the two strings have the same text.
    pub fn same(&self, other: &Self) -> (b: bool)
        ensures
            b == (self@ == other@),
    {
        self.string == other.string
    }
}

/// The character of an octal digit.
pub open spec fn octal_digit(d: u8) -> char {
    if d == 0 {
        '0'
    } else if d == 1 {
        '1'
    } else if d == 2 {
        '2'
    } else if d == 3 {
        '3'
    } else if d == 4 {
        '4'
    } else if d == 5 {
        '5'
    } else if d == 6 {
        '6'
    } else {
        '7'
    }
}

/// How one byte is shown: an ASCII byte as its character, any other as a
/// backslash and three octal digits.
pub open spec fn shown_byte(b: u8) -> Seq<char> {
    if b < 128 {
        seq![b as char]
    } else {
        seq!['\\', octal_digit(b / 64), octal_digit((b / 8) % 8), octal_digit(b % 8)]
    }
}

/// How a byte string is shown: its bytes in order, each as `shown_byte` has it.
pub open spec fn shown_bytes(bytes: Seq<u8>) -> Seq<char>
    decreases bytes.len(),
{
    if bytes.len() == 0 {
        Seq::empty()
    } else {
        shown_bytes(bytes.drop_last()) + shown_byte(bytes.last())
    }
}

fn octal_char(d: u8) -> (c: char)
    ensures
        c == octal_digit(d),
{
    if d == 0 {
        '0'
    } else if d == 1 {
        '1'
    } else if d == 2 {
        '2'
    } else if d == 3 {
        '3'
    } else if d == 4 {
        '4'
    } else if d == 5 {
        '5'
    } else if d == 6 {
        '6'
    } else {
        '7'
    }
}

/// A byte string: bytes with no reading as text.
#[derive(Debug)]
pub struct ByteStringInner {
    string: Vec<u8>,
}

impl View for ByteStringInner {
    type V = Seq<u8>;

    closed spec fn view(&self) -> Seq<u8> {
        self.string@
    }
}

impl ByteStringInner {
    /// The byte string that holds `string`.
    pub fn new(string: Vec<u8>) -> (s: Self)
        ensures
            s@ == string@,
    {
        Self { string }
    }

    /// The number of bytes.
    pub fn len(&self) -> (n: usize)
        ensures
            n == self@.len(),
    {
        self.string.len()
    }

    /// The byte at `idx`, or `None` past the end.
    pub fn get(&self, idx: usize) -> (b: Option<u8>)
        ensures
            idx < self@.len() ==> b == Some(self@[idx as int]),
            idx >= self@.len() ==> b.is_none(),
    {
        if idx < self.string.len() {
            Some(self.string[idx])
        } else {
            None
        }
    }

    /// A copy of the byte string.
    pub fn duplicate(&self) -> (s: Self)
        ensures
            s@ == self@,
    {
        Self { string: self.string.clone() }
    }

    /// The text that shows the byte string.
    pub fn display(&self) -> (s: String)
        ensures
            s@ == shown_bytes(self@),
    {
        let mut out = String::new();
        let mut i: usize = 0;
        while i < self.string.len()
            invariant
                i <= self.string@.len(),
                out@ == shown_bytes(self.string@.take(i as int)),
            decreases self.string@.len() - i,
        {
            let byte = self.string[i];
            proof {
                assert(self.string@.take(i + 1).drop_last() =~= self.string@.take(i as int));
                assert(self.string@.take(i + 1).last() == byte);
            }
            if byte < 128 {
                out.push(byte as char);
                assert(out@ =~= shown_bytes(self.string@.take(i as int)) + shown_byte(byte));
            } else {
                out.push('\\');
                out.push(octal_char(byte / 64));
                out.push(octal_char((byte / 8) % 8));
                out.push(octal_char(byte % 8));
                assert(out@ =~= shown_bytes(self.string@.take(i as int)) + shown_byte(byte));
            }
            i += 1;
        }
        assert(self.string@.take(i as int) =~= self.string@);
        out
    }
}

} // verus!
