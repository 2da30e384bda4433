//! SHA-256 of whole files and of audio streams, for duplicate classification.
//!
//! - The hash of a file is over all of its bytes: it finds byte-identical copies.
//! - The hash of an audio stream is over the packets of the audio track only: it finds
//!   the same audio below different tags.

use vstd::prelude::*;

use crate::fingerprint::ReadEvent;
use crate::text::hex;

verus! {

/// The hasher of the `sha2` crate.
#[verifier::external_type_specification]
#[verifier::external_body]
pub struct ExSha256(sha2::Sha256);

/// The bytes that a hasher was given, in their order.
pub uninterp spec fn absorbed_bytes(hasher: sha2::Sha256) -> Seq<u8>;

/// The SHA-256 of a sequence of bytes.
pub uninterp spec fn sha256_of(bytes: Seq<u8>) -> Seq<u8>;

/// `sha2::Sha256::new`: a hasher that was given nothing.
#[verifier::external_body]
fn new_hasher() -> (r: sha2::Sha256)
    ensures
        absorbed_bytes(r) == Seq::<u8>::empty(),
{
    sha2::Digest::new()
}

/// `sha2::Sha256::update`: gives the hasher more bytes.
#[verifier::external_body]
fn update_hasher(hasher: &mut sha2::Sha256, bytes: &[u8])
    ensures
        absorbed_bytes(*final(hasher)) == absorbed_bytes(*old(hasher)) + bytes@,
{
    sha2::Digest::update(hasher, bytes)
}

/// `sha2::Sha256::finalize`: the 32 bytes of the SHA-256 of what the hasher was given.
/// The count of bits must fit the hasher's 64-bit counter.
#[verifier::external_body]
fn finish_hasher(hasher: sha2::Sha256) -> (r: Vec<u8>)
    requires
        absorbed_bytes(hasher).len() < 0x2000_0000_0000_0000,
    ensures
        r@ == sha256_of(absorbed_bytes(hasher)),
        r@.len() == 32,
{
    sha2::Digest::finalize(hasher).to_vec()
}

/// More bytes than this are not hashed: their count in bits exceeds 64 bits.
pub const MAX_HASHED_BYTES: u64 = 0x1fff_ffff_ffff_ffff;

/// Hashes bytes as they are read.
pub struct StreamHasher {
    inner: sha2::Sha256,
}

impl StreamHasher {
    /// The bytes that were given so far.
    pub closed spec fn view(&self) -> Seq<u8> {
        absorbed_bytes(self.inner)
    }

    /// A hasher that was given nothing.
    pub fn new() -> (r: StreamHasher)
        ensures
            r@ == Seq::<u8>::empty(),
    {
        StreamHasher { inner: new_hasher() }
    }

    /// Gives the hasher more bytes.
    pub fn update(&mut self, bytes: &[u8])
        ensures
            final(self)@ == old(self)@ + bytes@,
    {
        update_hasher(&mut self.inner, bytes);
    }

    /// The SHA-256 of what was given, in lowercase hexadecimal.
    pub fn finish(self) -> (r: String)
        requires
            self@.len() <= MAX_HASHED_BYTES,
        ensures
            r@ == crate::text::hex_text(sha256_of(self@)),
            r@.len() == 64,
    {
        let digest = finish_hasher(self.inner);
        proof {
            crate::text::lemma_hex_text_len(digest@);
        }
        hex(&digest)
    }
}

/// The SHA-256 of `bytes` in lowercase hexadecimal.
pub fn sha256_hex(bytes: &[u8]) -> (r: String)
    requires
        bytes@.len() <= MAX_HASHED_BYTES,
    ensures
        r@ == crate::text::hex_text(sha256_of(bytes@)),
        r@.len() == 64,
{
    let mut hasher = StreamHasher::new();
    hasher.update(bytes);
    proof {
        assert(hasher@ =~= bytes@);
    }
    hasher.finish()
}

/// What to do after reading a packet of the container.
#[derive(Debug)]
pub enum HashAction {
    /// Hash the data of the packet.
    Absorb,
    /// Leave the packet and read the next one.
    Skip,
    /// The stream is at its end; its hash is complete.
    Finish,
    /// There is no hash, for this reason.
    Fail(String),
}

/// What to do about the outcome of reading a packet, when the audio of `track_id` is
/// hashed. A file that ends early has the hash of what is there; a malformed one has none.
pub fn audio_hash_action(event: ReadEvent, track_id: u32) -> (r: HashAction)
    ensures
        match event {
            ReadEvent::Packet(track) => if track == track_id {
                r is Absorb
            } else {
                r is Skip
            },
            ReadEvent::EndOfStream => r is Finish,
            ReadEvent::UnexpectedEof => r is Finish,
            ReadEvent::Malformed(message) => r is Fail && r->Fail_0@ == message@,
            ReadEvent::Failed(message) => r is Fail && r->Fail_0@ == message@,
        },
{
    match event {
        ReadEvent::Packet(track) => if track == track_id {
            HashAction::Absorb
        } else {
            HashAction::Skip
        },
        ReadEvent::EndOfStream => HashAction::Finish,
        ReadEvent::UnexpectedEof => HashAction::Finish,
        ReadEvent::Malformed(message) => HashAction::Fail(message),
        ReadEvent::Failed(message) => HashAction::Fail(message),
    }
}

/// A packet of a container: the track that it belongs to, and its data.
#[derive(Debug)]
pub struct Packet {
    /// Number of the track.
    pub track_id: u32,
    /// The compressed data.
    pub data: Vec<u8>,
}

/// The data of the packets of one track, one behind the other.
pub open spec fn track_data(packets: Seq<Packet>, track_id: u32) -> Seq<u8>
    decreases packets.len(),
{
    if packets.len() == 0 {
        seq![]
    } else {
        let before = track_data(packets.drop_last(), track_id);
        if packets.last().track_id == track_id {
            before + packets.last().data@
        } else {
            before
        }
    }
}

/// Takes one more packet into the hash of the audio of `track_id`.
pub fn absorb_packet(hasher: &mut StreamHasher, packet: &Packet, track_id: u32)
    ensures
        final(hasher)@ == old(hasher)@ + track_data(seq![*packet], track_id),
{
    proof {
        let one = seq![*packet];
        assert(one.drop_last() =~= seq![]);
        assert(track_data(one.drop_last(), track_id) + packet.data@ =~= packet.data@);
        if packet.track_id != track_id {
            assert(hasher@ + track_data(one, track_id) =~= hasher@);
        }
    }
    if packet.track_id == track_id {
        hasher.update(&packet.data);
    }
}

/// The hash of an audio stream is over its packets in their order, however they are
/// split: the data of two runs of packets is the data of the first, then of the second.
pub proof fn law_track_data_of_runs(first: Seq<Packet>, second: Seq<Packet>, track_id: u32)
    ensures
        track_data(first + second, track_id) == track_data(first, track_id) + track_data(
            second,
            track_id,
        ),
    decreases second.len(),
{
    if second.len() == 0 {
        assert(first + second =~= first);
        assert(track_data(first, track_id) + track_data(second, track_id) =~= track_data(
            first,
            track_id,
        ));
    } else {
        law_track_data_of_runs(first, second.drop_last(), track_id);
        assert((first + second).drop_last() =~= first + second.drop_last());
        assert((first + second).last() == second.last());
        assert(track_data(first + second, track_id) =~= track_data(first, track_id) + track_data(
            second,
            track_id,
        ));
    }
}

/// Packets of other tracks make no difference to the hash of an audio stream.
pub proof fn law_other_tracks_do_not_count(
    before: Seq<Packet>,
    other: Packet,
    after: Seq<Packet>,
    track_id: u32,
)
    requires
        other.track_id != track_id,
    ensures
        track_data(before + seq![other] + after, track_id) == track_data(before + after, track_id),
{
    law_track_data_of_runs(before + seq![other], after, track_id);
    law_track_data_of_runs(before, seq![other], track_id);
    law_track_data_of_runs(before, after, track_id);
    assert(seq![other].drop_last() =~= seq![]);
    reveal_with_fuel(track_data, 2);
    assert(track_data(seq![other], track_id) =~= seq![]);
    assert(track_data(before, track_id) + track_data(seq![other], track_id) =~= track_data(
        before,
        track_id,
    ));
}

/// All data of a packet of the track is hashed.
pub proof fn law_a_packet_counts_with_all_its_data(packet: Packet)
    ensures
        track_data(seq![packet], packet.track_id) == packet.data@,
        track_data(Seq::empty(), packet.track_id) == Seq::<u8>::empty(),
{
    let one = seq![packet];
    assert(one.drop_last() =~= Seq::<Packet>::empty());
    assert(track_data(one.drop_last(), packet.track_id) + packet.data@ =~= packet.data@);
}

} // verus!
