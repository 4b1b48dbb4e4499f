use vstd::prelude::*;
use vstd::utf8::{valid_utf8, decode_utf8, encode_utf8, encode_utf8_decode_utf8};
use vstd::string::StringSliceAdditionalSpecFns;

verus! {

/// The viewed text is not well formed; surfaced to the caller, never
/// replaced or panicked on.
#[derive(Clone, Copy, Debug, PartialEq, Eq, Structural)]
pub struct EncodingError;

/// Index of the first terminator byte of a sequence that holds one.
pub open spec fn first_nul(s: Seq<u8>) -> int
    decreases s.len(),
{
    if s.len() == 0 {
        0
    } else if s[0] == 0 {
        0
    } else {
        1 + first_nul(s.skip(1))
    }
}

/// The first terminator position is in range, holds the terminator, and
/// nothing before it does.
pub proof fn lemma_first_nul(s: Seq<u8>)
    requires
        s.contains(0),
    ensures
        0 <= first_nul(s) < s.len(),
        s[first_nul(s)] == 0,
        forall|j: int| 0 <= j < first_nul(s) ==> s[j] != 0,
    decreases s.len(),
{
    if s[0] == 0 {
    } else {
        let i = choose|i: int| 0 <= i < s.len() && s[i] == 0;
        assert(s.skip(1)[i - 1] == 0);
        assert(s.skip(1).contains(0));
        lemma_first_nul(s.skip(1));
        assert forall|j: int| 0 <= j < first_nul(s) implies s[j] != 0 by {
            if j > 0 {
                assert(s.skip(1)[j - 1] != 0);
            }
        }
    }
}

/// Relies on str::from_utf8 over the leading `end` bytes: it succeeds
/// exactly on well-formed text and returns those same bytes as a text view.
#[verifier::external_body]
fn prefix_to_str(b: &Vec<u8>, end: usize) -> (r: Result<&str, EncodingError>)
    requires
        end <= b@.len(),
    ensures
        r is Ok <==> valid_utf8(b@.subrange(0, end as int)),
        r matches Ok(s) ==> s.spec_bytes() == b@.subrange(0, end as int),
{
    match std::str::from_utf8(&b[..end]) {
        Ok(s) => Ok(s),
        Err(_) => Err(EncodingError),
    }
}

/// A byte buffer handed over by the native layer, ended by a terminator.
///
/// The view is the owned byte sequence, terminator included: the owned
/// length is the text length plus one. Ownership is exclusive; releasing
/// the native allocation happens outside this model, exactly once, by move.
#[derive(Debug)]
pub struct GString {
    bytes: Vec<u8>,
}

impl View for GString {
    type V = Seq<u8>;

    closed spec fn view(&self) -> Seq<u8> {
        self.bytes@
    }
}

impl GString {
    /// One terminator, at the end.
    #[verifier::type_invariant]
    pub closed spec fn wf(&self) -> bool {
        &&& self.bytes@.len() >= 1
        &&& self.bytes@.last() == 0
        &&& forall|j: int| 0 <= j < self.bytes@.len() - 1 ==> self.bytes@[j] != 0
    }

    /// The text bytes: everything before the terminator.
    pub open spec fn text_bytes(&self) -> Seq<u8> {
        self@.drop_last()
    }

    /// Take ownership of a terminator-ended byte sequence. The length is
    /// found by scanning for the first terminator; exactly the bytes up to
    /// and including it are kept.
    pub fn from_raw(raw: Vec<u8>) -> (r: GString)
        requires
            raw@.contains(0),
        ensures
            r@ == raw@.subrange(0, first_nul(raw@) + 1),
            r.text_bytes() == raw@.subrange(0, first_nul(raw@)),
    {
        proof {
            lemma_first_nul(raw@);
        }
        let n = raw.len();
        let mut i: usize = 0;
        while raw[i] != 0
            invariant
                raw@.contains(0),
                0 <= i <= first_nul(raw@),
                first_nul(raw@) < raw@.len(),
                raw@.len() == n,
                raw@[first_nul(raw@)] == 0,
                forall|j: int| 0 <= j < i ==> raw@[j] != 0,
            decreases raw@.len() - i,
        {
            i = i + 1;
            proof {
                if i <= first_nul(raw@) {
                } else {
                    assert(raw@[first_nul(raw@)] == 0);
                }
            }
        }
        proof {
            assert(i == first_nul(raw@));
        }
        let ghost orig = raw@;
        let mut bytes = raw;
        bytes.truncate(i + 1);
        let r = GString { bytes };
        proof {
            assert(r@.drop_last() =~= orig.subrange(0, first_nul(orig)));
        }
        r
    }

    /// Borrow the text before the terminator, checked for well-formedness;
    /// malformed bytes are reported as an `EncodingError`.
    pub fn to_str(&self) -> (r: Result<&str, EncodingError>)
        ensures
            r is Ok <==> valid_utf8(self.text_bytes()),
            r matches Ok(s) ==> s.spec_bytes() == self.text_bytes(),
            r matches Ok(s) ==> s@ == decode_utf8(self.text_bytes()),
    {
        proof {
            use_type_invariant(self);
            assert(self@.subrange(0, self@.len() - 1) =~= self.text_bytes());
        }
        let n = self.bytes.len();
        let r = prefix_to_str(&self.bytes, n - 1);
        proof {
            if r is Ok {
                let s = r->Ok_0;
                assert(encode_utf8(s@) == self.text_bytes());
                encode_utf8_decode_utf8(s@);
            }
        }
        r
    }

    /// Give up the handle and hand out the owned bytes, terminator included.
    /// Consuming the handle makes a second release of the same ownership
    /// unrepresentable.
    pub fn into_bytes(self) -> (r: Vec<u8>)
        ensures
            r@ == self@,
    {
        self.bytes
    }
}

/// Taking ownership of a terminator-ended sequence and then viewing its text
/// yields exactly the original bytes before the first terminator.
pub proof fn lemma_from_raw_text_round_trip(raw: Seq<u8>)
    requires
        raw.contains(0),
    ensures
        raw.subrange(0, first_nul(raw) + 1).drop_last() =~= raw.subrange(0, first_nul(raw)),
{
    lemma_first_nul(raw);
}

} // verus!
