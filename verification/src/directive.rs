//! The directive grammar `store://BUCKET/KEY:DEST` and its parser.
//!
//! `BUCKET` runs from the scheme prefix to the first `/` after it, `DEST`
//! is everything after the last `:` of the whole string, and `KEY` is what
//! stands between; keys may therefore contain both `/` and `:`, and only
//! the final colon separates the key from the destination.
//!
//! A bucket segment may carry a region hint after its last underscore
//! (`bucket_us-west-2`).  The parser hands the bucket segment on
//! verbatim; nothing in the library acts on the hint, and region
//! resolution is left to the binary that builds the storage client.

use vstd::prelude::*;

use crate::bytes::{
    find_byte_from, first_index_from, last_index_of, lemma_first_index_from,
    lemma_first_index_from_is, lemma_last_index_of, lemma_last_index_of_is, rfind_byte, subvec,
};
use crate::error::PipelineError;

verus! {

/// The byte `/`.
pub const SLASH_BYTE: u8 = 47;

/// The byte `:`.
pub const COLON_BYTE: u8 = 58;

/// The scheme prefix `store://` that opens every directive.
pub open spec fn scheme_prefix() -> Seq<u8> {
    seq![115u8, 116u8, 111u8, 114u8, 101u8, COLON_BYTE, SLASH_BYTE, SLASH_BYTE]
}

/// A raw directive is well formed when it starts with `store://`, a `/`
/// follows the prefix, and a `:` follows that first `/`.
pub open spec fn wf_directive(s: Seq<u8>) -> bool {
    &&& s.len() >= 8
    &&& s.subrange(0, 8) == scheme_prefix()
    &&& first_index_from(s, 8, SLASH_BYTE) < s.len()
    &&& first_index_from(s, 8, SLASH_BYTE) < last_index_of(s, COLON_BYTE)
}

/// The bucket segment of a well-formed directive: from the prefix to the
/// first `/` after it.
pub open spec fn spec_bucket(s: Seq<u8>) -> Seq<u8> {
    s.subrange(8, first_index_from(s, 8, SLASH_BYTE))
}

/// The key segment of a well-formed directive: from the first `/` after
/// the prefix to the last `:` of the string.
pub open spec fn spec_key(s: Seq<u8>) -> Seq<u8> {
    s.subrange(first_index_from(s, 8, SLASH_BYTE) + 1, last_index_of(s, COLON_BYTE))
}

/// The destination segment of a well-formed directive: everything after
/// the last `:`.
pub open spec fn spec_dest(s: Seq<u8>) -> Seq<u8> {
    s.subrange(last_index_of(s, COLON_BYTE) + 1, s.len() as int)
}

/// The three segments of one directive, at the specification level.
pub struct EntryV {
    pub bucket: Seq<u8>,
    pub key: Seq<u8>,
    pub dest: Seq<u8>,
}

/// What parsing a well-formed directive yields.
pub open spec fn entry_of(s: Seq<u8>) -> EntryV {
    EntryV { bucket: spec_bucket(s), key: spec_key(s), dest: spec_dest(s) }
}

/// One parsed directive: which object to fetch and where to write it.
#[derive(Debug, Clone, PartialEq, Eq)]
pub struct ParsedEntry {
    pub bucket: Vec<u8>,
    pub key: Vec<u8>,
    pub dest: Vec<u8>,
}

impl View for ParsedEntry {
    type V = EntryV;

    open spec fn view(&self) -> EntryV {
        EntryV { bucket: self.bucket@, key: self.key@, dest: self.dest@ }
    }
}

/// True when the first eight bytes are `store://`.
fn has_scheme_prefix(s: &Vec<u8>) -> (r: bool)
    ensures
        r <==> (s@.len() >= 8 && s@.subrange(0, 8) == scheme_prefix()),
{
    if s.len() < 8 {
        return false;
    }
    let r = s[0] == 115 && s[1] == 116 && s[2] == 111 && s[3] == 114 && s[4] == 101 && s[5]
        == COLON_BYTE && s[6] == SLASH_BYTE && s[7] == SLASH_BYTE;
    proof {
        if r {
            assert(s@.subrange(0, 8) =~= scheme_prefix());
        } else {
            if s@.subrange(0, 8) == scheme_prefix() {
                assert(forall|j: int| 0 <= j < 8 ==> s@[j] == scheme_prefix()[j]) by {
                    assert(forall|j: int| 0 <= j < 8 ==> s@.subrange(0, 8)[j] == s@[j]);
                }
            }
        }
    }
    r
}

/// Parse one raw directive.
///
/// A well-formed directive yields exactly its bucket, key and destination
/// segments; anything else is rejected as malformed, carrying the
/// offending string.
pub fn parse_directive(raw: &Vec<u8>) -> (r: Result<ParsedEntry, PipelineError>)
    ensures
        match r {
            Ok(e) => wf_directive(raw@) && e@ == entry_of(raw@),
            Err(e) => !wf_directive(raw@) && (e matches PipelineError::MalformedDirective(s)
                && s@ == raw@),
        },
{
    if !has_scheme_prefix(raw) {
        return Err(PipelineError::MalformedDirective(crate::bytes::clone_bytes(raw)));
    }
    proof {
        lemma_first_index_from(raw@, 8, SLASH_BYTE);
        lemma_last_index_of(raw@, COLON_BYTE);
    }
    let slash = find_byte_from(raw, 8, SLASH_BYTE);
    if slash == raw.len() {
        return Err(PipelineError::MalformedDirective(crate::bytes::clone_bytes(raw)));
    }
    let colon = match rfind_byte(raw, COLON_BYTE) {
        None => {
            return Err(PipelineError::MalformedDirective(crate::bytes::clone_bytes(raw)));
        },
        Some(c) => c,
    };
    if colon <= slash {
        return Err(PipelineError::MalformedDirective(crate::bytes::clone_bytes(raw)));
    }
    let bucket = subvec(raw, 8, slash);
    let key = subvec(raw, slash + 1, colon);
    let dest = subvec(raw, colon + 1, raw.len());
    Ok(ParsedEntry { bucket, key, dest })
}

/// Parse a whole directive list, eagerly: the first malformed directive
/// aborts the batch and nothing is planned.
pub fn parse_all(raws: &Vec<Vec<u8>>) -> (r: Result<Vec<ParsedEntry>, PipelineError>)
    ensures
        r is Ok ==> {
            let es = r->Ok_0;
            &&& es@.len() == raws@.len()
            &&& forall|i: int| 0 <= i < raws@.len() ==> wf_directive(#[trigger] raws@[i]@)
            &&& forall|i: int|
                0 <= i < raws@.len() ==> #[trigger] es@[i]@ == entry_of(raws@[i]@)
        },
        r is Err ==> {
            let e = r->Err_0;
            &&& e matches PipelineError::MalformedDirective(s) && exists|i: int|
                #![trigger raws@[i]]
                0 <= i < raws@.len() && raws@[i]@ == s@ && !wf_directive(raws@[i]@) && forall|
                    j: int,
                |
                    0 <= j < i ==> wf_directive(raws@[j]@)
        },
{
    let mut es: Vec<ParsedEntry> = Vec::new();
    let mut i: usize = 0;
    while i < raws.len()
        invariant
            i <= raws.len(),
            es@.len() == i,
            forall|j: int| 0 <= j < i ==> wf_directive(#[trigger] raws@[j]@),
            forall|j: int| 0 <= j < i ==> #[trigger] es@[j]@ == entry_of(raws@[j]@),
        decreases raws.len() - i,
    {
        let e = match parse_directive(&raws[i]) {
            Ok(e) => e,
            Err(err) => {
                proof {
                    let ri = i as int;
                    assert(0 <= ri < raws@.len() && raws@[ri]@ == err->MalformedDirective_0@
                        && !wf_directive(raws@[ri]@) && forall|j: int|
                        0 <= j < ri ==> wf_directive(#[trigger] raws@[j]@));
                }
                return Err(err);
            },
        };
        let ghost pre = es@;
        es.push(e);
        proof {
            assert forall|j: int| 0 <= j < i + 1 implies #[trigger] es@[j]@ == entry_of(
                raws@[j]@,
            ) by {
                if j < i {
                    assert(es@[j] == pre[j]);
                    assert(pre[j]@ == entry_of(raws@[j]@));
                } else {
                    assert(es@[j] == e);
                }
            }
        }
        i = i + 1;
    }
    Ok(es)
}

/// Any directive assembled from a bucket without `/`, any key at all, and
/// a destination without `:` parses back to exactly those three parts.
pub proof fn lemma_directive_round_trip(bucket: Seq<u8>, key: Seq<u8>, dest: Seq<u8>)
    requires
        !bucket.contains(SLASH_BYTE),
        !dest.contains(COLON_BYTE),
    ensures
        ({
            let s = scheme_prefix() + bucket + seq![SLASH_BYTE] + key + seq![COLON_BYTE] + dest;
            &&& wf_directive(s)
            &&& spec_bucket(s) == bucket
            &&& spec_key(s) == key
            &&& spec_dest(s) == dest
        }),
{
    let s = scheme_prefix() + bucket + seq![SLASH_BYTE] + key + seq![COLON_BYTE] + dest;
    let sl = 8 + bucket.len() as int;
    let co = sl + 1 + key.len() as int;
    assert(s.len() == co + 1 + dest.len());
    assert(s.subrange(0, 8) =~= scheme_prefix());
    assert(s[sl] == SLASH_BYTE);
    assert(s[co] == COLON_BYTE);
    assert forall|j: int| 8 <= j < sl implies s[j] != SLASH_BYTE by {
        assert(s[j] == bucket[j - 8]);
        if s[j] == SLASH_BYTE {
            assert(bucket.contains(SLASH_BYTE));
        }
    }
    lemma_first_index_from_is(s, 8, SLASH_BYTE, sl);
    assert forall|j: int| co < j < s.len() implies s[j] != COLON_BYTE by {
        assert(s[j] == dest[j - co - 1]);
        if s[j] == COLON_BYTE {
            assert(dest.contains(COLON_BYTE));
        }
    }
    lemma_last_index_of_is(s, COLON_BYTE, co);
    assert(spec_bucket(s) =~= bucket);
    assert(spec_key(s) =~= key);
    assert(spec_dest(s) =~= dest);
}

} // verus!
