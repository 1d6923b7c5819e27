use crate::error::MatchError;
use crate::roameo::{selects, Roameo};
use vstd::prelude::*;

verus! {

/// The length of the buffer that holds a wireless network name.
pub const ESSID_LENGTH: usize = 32;

/// What the wireless name query said of one interface: the raw name
/// buffer, or nothing where the interface gave no answer.
pub struct WirelessProbe {
    /// The interface's name.
    pub interface: String,
    /// The name buffer, where the query succeeded.
    pub reply: Option<Vec<u8>>,
}

/// The bytes without their trailing zero bytes.
pub open spec fn trim_end_nul(b: Seq<u8>) -> Seq<u8>
    decreases b.len(),
{
    if b.len() > 0 && b.last() == 0 {
        trim_end_nul(b.drop_last())
    } else {
        b
    }
}

/// The reply fits the name buffer and, without its trailing zero padding,
/// holds the network name `essid`.
pub open spec fn reply_names(reply: Option<Vec<u8>>, essid: Seq<char>) -> bool {
    match reply {
        Some(b) => b@.len() <= ESSID_LENGTH && trim_end_nul(b@) == vstd::utf8::encode_utf8(essid),
        None => false,
    }
}

/// The probe is of an interface that the filter lets through and names
/// the network `essid`.
pub open spec fn probe_matches(filter: Seq<char>, p: WirelessProbe, essid: Seq<char>) -> bool {
    selects(filter, p.interface@) && reply_names(p.reply, essid)
}

/// The length of the bytes once the trailing zero bytes are trimmed.
fn trimmed_len(b: &Vec<u8>) -> (r: usize)
    ensures
        r <= b@.len(),
        trim_end_nul(b@) == b@.subrange(0, r as int),
{
    let mut hi: usize = b.len();
    assert(b@.subrange(0, hi as int) =~= b@);
    while hi > 0 && b[hi - 1] == 0
        invariant
            hi <= b@.len(),
            trim_end_nul(b@) == trim_end_nul(b@.subrange(0, hi as int)),
        decreases hi,
    {
        assert(b@.subrange(0, hi as int).drop_last() =~= b@.subrange(0, hi - 1));
        hi = hi - 1;
    }
    hi
}

/// Whether `want` equals the bytes of `b` from `lo` up to `hi`.
fn same_bytes(want: &[u8], b: &Vec<u8>, lo: usize, hi: usize) -> (r: bool)
    requires
        lo <= hi <= b@.len(),
    ensures
        r == (want@ == b@.subrange(lo as int, hi as int)),
{
    if want.len() != hi - lo {
        assert(want@.len() != b@.subrange(lo as int, hi as int).len());
        return false;
    }
    let mut k: usize = 0;
    while k < want.len()
        invariant
            lo <= hi <= b@.len(),
            want@.len() == hi - lo,
            k <= want@.len(),
            forall|j: int| 0 <= j < k ==> want@[j] == b@[lo + j],
        decreases want@.len() - k,
    {
        if want[k] != b[lo + k] {
            assert(want@[k as int] != b@.subrange(lo as int, hi as int)[k as int]);
            return false;
        }
        k = k + 1;
    }
    assert(want@ =~= b@.subrange(lo as int, hi as int));
    true
}

impl Roameo {
    /// Whether a reply of the wireless name query names the network
    /// `essid`, once its trailing zero padding is trimmed; a reply longer
    /// than the name buffer, or an interface that gave no answer, does not.
    pub fn has_essid(&self, reply: &Option<Vec<u8>>, essid: &str) -> (r: Result<(), MatchError>)
        ensures
            r is Ok <==> reply_names(*reply, essid@),
            r is Err ==> r == Err::<(), MatchError>(MatchError::NotFound),
    {
        let b = match reply {
            Some(b) => b,
            None => return Err(MatchError::NotFound),
        };
        if b.len() > ESSID_LENGTH {
            return Err(MatchError::NotFound);
        }
        let hi = trimmed_len(b);
        if same_bytes(essid.as_bytes(), b, 0, hi) {
            Ok(())
        } else {
            Err(MatchError::NotFound)
        }
    }

    /// Looks for an interface that the filter lets through and whose
    /// wireless name query names the network `essid`. Without `probes` the
    /// platform has no such query, and the match is refused as unsupported.
    pub fn match_essid(&self, essid: &str, probes: &Option<Vec<WirelessProbe>>) -> (r: Result<
        (),
        MatchError,
    >)
        ensures
            probes is None ==> r == Err::<(), MatchError>(MatchError::Unsupported),
            probes is Some ==> (r is Ok <==> exists|i: int|
                0 <= i < probes->Some_0@.len() && probe_matches(
                    self.interface_spec(),
                    #[trigger] probes->Some_0@[i],
                    essid@,
                )),
            probes is Some && r is Err ==> r == Err::<(), MatchError>(MatchError::NotFound),
    {
        let ps = match probes {
            Some(ps) => ps,
            None => return Err(MatchError::Unsupported),
        };
        let mut i: usize = 0;
        while i < ps.len()
            invariant
                i <= ps@.len(),
                probes->Some_0@ == ps@,
                probes is Some,
                forall|j: int|
                    0 <= j < i ==> !probe_matches(self.interface_spec(), #[trigger] ps@[j], essid@),
            decreases ps.len() - i,
        {
            let p = &ps[i];
            if self.selects(p.interface.as_str()) {
                if self.has_essid(&p.reply, essid).is_ok() {
                    assert(probe_matches(
                        self.interface_spec(),
                        probes->Some_0@[i as int],
                        essid@,
                    ));
                    return Ok(());
                }
            }
            i = i + 1;
        }
        Err(MatchError::NotFound)
    }
}

} // verus!
