//! The client side of the protocol: the peer handshake, tracker requests and
//! the compact peer list that a tracker answers with.
use vstd::prelude::*;
use vstd::string::{StrSliceExecFns, StringExecFns};
use crate::encoding::{hex_encode, hex_lower};
use crate::text::{decimal, push_char, push_decimal};

pub mod download;

verus! {

/// What a client asks a tracker for.
pub struct TrackerRequest {
    pub peer_id: String,
    pub port: usize,
    pub uploaded: usize,
    pub downloaded: usize,
    pub left: usize,
    pub compact: usize,
}

/// A tracker's answer: the re-announce interval and the compact peer list
/// (six bytes per peer).
pub struct TrackerResponse {
    pub interval: usize,
    pub peers_raw: Vec<u8>,
}

/// A peer's address: the dotted IPv4 text and the port.
pub struct Peer {
    pub ip: String,
    pub port: u16,
}

/// The 68-byte greeting that opens a peer connection.
pub struct Handshake {
    pub length: u8,
    pub bittorrent: [u8; 19],
    pub reserved: [u8; 8],
    pub info_hash: [u8; 20],
    pub peer_id: [u8; 20],
}

/// The bytes of "BitTorrent protocol".
pub open spec fn protocol_name() -> Seq<u8> {
    seq![66u8, 105, 116, 84, 111, 114, 114, 101, 110, 116, 32, 112, 114, 111, 116, 111, 99, 111, 108]
}

/// The bytes of the peer id this client announces: "00112233445566778899".
pub open spec fn local_peer_id_bytes() -> Seq<u8> {
    seq![48u8, 48, 49, 49, 50, 50, 51, 51, 52, 52, 53, 53, 54, 54, 55, 55, 56, 56, 57, 57]
}

/// The peer id this client sends in its handshakes.
pub fn local_peer_id() -> (id: [u8; 20])
    ensures
        id@ == local_peer_id_bytes(),
{
    let id = [48u8, 48, 49, 49, 50, 50, 51, 51, 52, 52, 53, 53, 54, 54, 55, 55, 56, 56, 57, 57];
    assert(id@ =~= local_peer_id_bytes());
    id
}

impl Handshake {
    /// The handshake's bytes on the wire: length, protocol name, reserved
    /// bytes, info hash and peer id, in that order.
    pub open spec fn wire(&self) -> Seq<u8> {
        seq![self.length] + self.bittorrent@ + self.reserved@ + self.info_hash@ + self.peer_id@
    }

    /// A handshake for the given torrent and peer id.
    pub fn new(info_hash: [u8; 20], peer_id: [u8; 20]) -> (h: Self)
        ensures
            h.length == 19,
            h.bittorrent@ == protocol_name(),
            h.reserved@ == Seq::new(8, |i: int| 0u8),
            h.info_hash == info_hash,
            h.peer_id == peer_id,
    {
        let bittorrent = [66u8, 105, 116, 84, 111, 114, 114, 101, 110, 116, 32, 112, 114, 111, 116, 111, 99, 111, 108];
        let reserved = [0u8; 8];
        assert(bittorrent@ =~= protocol_name());
        assert(reserved@ =~= Seq::new(8, |i: int| 0u8));
        Handshake { length: 19, bittorrent, reserved, info_hash, peer_id }
    }

    /// The 68 bytes of this handshake.
    pub fn to_bytes(&mut self) -> (bytes: [u8; 68])
        ensures
            *final(self) == *old(self),
            bytes@ == old(self).wire(),
    {
        let mut bytes = [0u8; 68];
        bytes[0] = self.length;
        let mut i: usize = 0;
        while i < 19
            invariant
                i <= 19,
                bytes@.len() == 68,
                bytes@[0] == self.length,
                forall|k: int| 0 <= k < i ==> bytes@[1 + k] == self.bittorrent@[k],
            decreases 19 - i,
        {
            bytes[1 + i] = self.bittorrent[i];
            i = i + 1;
        }
        let mut i: usize = 0;
        while i < 8
            invariant
                i <= 8,
                bytes@.len() == 68,
                bytes@[0] == self.length,
                forall|k: int| 0 <= k < 19 ==> bytes@[1 + k] == self.bittorrent@[k],
                forall|k: int| 0 <= k < i ==> bytes@[20 + k] == self.reserved@[k],
            decreases 8 - i,
        {
            bytes[20 + i] = self.reserved[i];
            i = i + 1;
        }
        let mut i: usize = 0;
        while i < 20
            invariant
                i <= 20,
                bytes@.len() == 68,
                bytes@[0] == self.length,
                forall|k: int| 0 <= k < 19 ==> bytes@[1 + k] == self.bittorrent@[k],
                forall|k: int| 0 <= k < 8 ==> bytes@[20 + k] == self.reserved@[k],
                forall|k: int| 0 <= k < i ==> bytes@[28 + k] == self.info_hash@[k],
            decreases 20 - i,
        {
            bytes[28 + i] = self.info_hash[i];
            i = i + 1;
        }
        let mut i: usize = 0;
        while i < 20
            invariant
                i <= 20,
                bytes@.len() == 68,
                bytes@[0] == self.length,
                forall|k: int| 0 <= k < 19 ==> bytes@[1 + k] == self.bittorrent@[k],
                forall|k: int| 0 <= k < 8 ==> bytes@[20 + k] == self.reserved@[k],
                forall|k: int| 0 <= k < 20 ==> bytes@[28 + k] == self.info_hash@[k],
                forall|k: int| 0 <= k < i ==> bytes@[48 + k] == self.peer_id@[k],
            decreases 20 - i,
        {
            bytes[48 + i] = self.peer_id[i];
            i = i + 1;
        }
        assert(bytes@ =~= self.wire());
        bytes
    }

    /// The handshake whose bytes are the 68 given ones.
    pub fn from_bytes(bytes: &[u8]) -> (h: Self)
        requires
            bytes@.len() == 68,
        ensures
            h.wire() == bytes@,
    {
        let length = bytes[0];
        let mut bittorrent = [0u8; 19];
        let mut i: usize = 0;
        while i < 19
            invariant
                i <= 19,
                bytes@.len() == 68,
                bittorrent@.len() == 19,
                forall|k: int| 0 <= k < i ==> bittorrent@[k] == bytes@[1 + k],
            decreases 19 - i,
        {
            bittorrent[i] = bytes[1 + i];
            i = i + 1;
        }
        let mut reserved = [0u8; 8];
        let mut i: usize = 0;
        while i < 8
            invariant
                i <= 8,
                bytes@.len() == 68,
                reserved@.len() == 8,
                forall|k: int| 0 <= k < i ==> reserved@[k] == bytes@[20 + k],
            decreases 8 - i,
        {
            reserved[i] = bytes[20 + i];
            i = i + 1;
        }
        let mut info_hash = [0u8; 20];
        let mut i: usize = 0;
        while i < 20
            invariant
                i <= 20,
                bytes@.len() == 68,
                info_hash@.len() == 20,
                forall|k: int| 0 <= k < i ==> info_hash@[k] == bytes@[28 + k],
            decreases 20 - i,
        {
            info_hash[i] = bytes[28 + i];
            i = i + 1;
        }
        let mut peer_id = [0u8; 20];
        let mut i: usize = 0;
        while i < 20
            invariant
                i <= 20,
                bytes@.len() == 68,
                peer_id@.len() == 20,
                forall|k: int| 0 <= k < i ==> peer_id@[k] == bytes@[48 + k],
            decreases 20 - i,
        {
            peer_id[i] = bytes[48 + i];
            i = i + 1;
        }
        let h = Handshake { length, bittorrent, reserved, info_hash, peer_id };
        assert(h.wire() =~= bytes@);
        h
    }
}

/// A handshake is determined by its bytes: two handshakes with the same wire
/// bytes are the same handshake, so reading back what `to_bytes` wrote gives
/// the handshake that was written.
pub proof fn lemma_handshake_wire_injective(h: Handshake, g: Handshake)
    requires
        h.wire() == g.wire(),
    ensures
        h == g,
{
    let w = h.wire();
    assert(h.bittorrent@ =~= w.subrange(1, 20));
    assert(g.bittorrent@ =~= w.subrange(1, 20));
    assert(h.reserved@ =~= w.subrange(20, 28));
    assert(g.reserved@ =~= w.subrange(20, 28));
    assert(h.info_hash@ =~= w.subrange(28, 48));
    assert(g.info_hash@ =~= w.subrange(28, 48));
    assert(h.peer_id@ =~= w.subrange(48, 68));
    assert(g.peer_id@ =~= w.subrange(48, 68));
    assert(h.length == w[0]);
    assert(g.length == w[0]);
    vstd::array::lemma_array_index(h.bittorrent, 0);
    assert(h.bittorrent == g.bittorrent);
    assert(h.reserved == g.reserved);
    assert(h.info_hash == g.info_hash);
    assert(h.peer_id == g.peer_id);
}


/// Percent-encoding of a hex string: a `%` before every character at an even
/// position, so that each pair of hex digits becomes one escaped byte.
pub open spec fn percent_encoded(cs: Seq<char>) -> Seq<char>
    decreases cs.len(),
{
    if cs.len() == 0 {
        Seq::empty()
    } else if (cs.len() - 1) % 2 == 0 {
        percent_encoded(cs.drop_last()).push('%').push(cs.last())
    } else {
        percent_encoded(cs.drop_last()).push(cs.last())
    }
}

/// The encoding is one character longer per started pair.
pub proof fn lemma_percent_encoded_len(cs: Seq<char>)
    ensures
        percent_encoded(cs).len() == cs.len() + (cs.len() + 1) / 2,
    decreases cs.len(),
{
    if cs.len() > 0 {
        lemma_percent_encoded_len(cs.drop_last());
    }
}

/// Puts a `%` before every character at an even position of `s`.
pub fn percent_encode_hash(s: &str) -> (result: String)
    ensures
        result@ == percent_encoded(s@),
        result@.len() == s@.len() + (s@.len() + 1) / 2,
{
    let n = s.unicode_len();
    let mut result = String::new();
    let mut i: usize = 0;
    while i < n
        invariant
            i <= n,
            n == s@.len(),
            result@ == percent_encoded(s@.take(i as int)),
        decreases n - i,
    {
        let chr = s.get_char(i);
        if i % 2 == 0 {
            push_char(&mut result, '%');
        }
        push_char(&mut result, chr);
        proof {
            assert(s@.take(i + 1).drop_last() =~= s@.take(i as int));
        }
        i = i + 1;
    }
    proof {
        assert(s@.take(n as int) =~= s@);
        lemma_percent_encoded_len(s@);
    }
    result
}

/// The dotted-quad text of four address bytes.
pub open spec fn dotted_quad(a: u8, b: u8, c: u8, d: u8) -> Seq<char> {
    decimal(a as nat) + seq!['.'] + decimal(b as nat) + seq!['.'] + decimal(c as nat) + seq!['.']
        + decimal(d as nat)
}

/// The peer described by the `i`-th six-byte record of a compact peer list.
pub open spec fn compact_peer_ip(bytes: Seq<u8>, i: int) -> Seq<char> {
    dotted_quad(bytes[6 * i], bytes[6 * i + 1], bytes[6 * i + 2], bytes[6 * i + 3])
}

pub open spec fn compact_peer_port(bytes: Seq<u8>, i: int) -> u16 {
    (bytes[6 * i + 4] * 256 + bytes[6 * i + 5]) as u16
}

/// Reads a compact peer list: each whole six-byte record is four address
/// bytes and a big-endian port; a trailing partial record is ignored.
pub fn parse_compact_peers(bytes: &[u8]) -> (peers: Vec<Peer>)
    ensures
        peers@.len() == bytes@.len() / 6,
        forall|i: int|
            0 <= i < peers@.len() ==> #[trigger] peers@[i].ip@ == compact_peer_ip(bytes@, i)
                && peers@[i].port == compact_peer_port(bytes@, i),
{
    let count = bytes.len() / 6;
    let mut peers: Vec<Peer> = Vec::new();
    let mut i: usize = 0;
    while i < count
        invariant
            i <= count,
            count == bytes@.len() / 6,
            peers@.len() == i,
            forall|j: int|
                0 <= j < i ==> #[trigger] peers@[j].ip@ == compact_peer_ip(bytes@, j)
                    && peers@[j].port == compact_peer_port(bytes@, j),
        decreases count - i,
    {
        let len = bytes.len();
        assert(6 * i + 6 <= len) by (nonlinear_arith)
            requires
                i < count,
                count == len / 6,
        ;
        let base = 6 * i;
        let mut ip = String::new();
        push_decimal(&mut ip, bytes[base]);
        push_char(&mut ip, '.');
        push_decimal(&mut ip, bytes[base + 1]);
        push_char(&mut ip, '.');
        push_decimal(&mut ip, bytes[base + 2]);
        push_char(&mut ip, '.');
        push_decimal(&mut ip, bytes[base + 3]);
        let port = (bytes[base + 4] as u16) * 256 + (bytes[base + 5] as u16);
        assert(ip@ =~= compact_peer_ip(bytes@, i as int));
        peers.push(Peer { ip, port });
        i = i + 1;
    }
    peers
}

impl TrackerResponse {
    /// The peers of the compact list.
    pub fn peers(&self) -> (peers: Vec<Peer>)
        ensures
            peers@.len() == self.peers_raw@.len() / 6,
            forall|i: int|
                0 <= i < peers@.len() ==> #[trigger] peers@[i].ip@ == compact_peer_ip(
                    self.peers_raw@,
                    i,
                ) && peers@[i].port == compact_peer_port(self.peers_raw@, i),
    {
        parse_compact_peers(self.peers_raw.as_slice())
    }
}

impl TrackerRequest {
    /// The announce made before downloading: this client's peer id
    /// "codecraftersbittorre", port 6881, nothing up or down yet, `left`
    /// bytes to go, and a compact answer asked for.
    pub fn new(left: usize) -> (r: Self)
        ensures
            r.peer_id@ == "codecraftersbittorre"@,
            r.port == 6881,
            r.uploaded == 0,
            r.downloaded == 0,
            r.left == left,
            r.compact == 1,
    {
        TrackerRequest {
            peer_id: String::from_str("codecraftersbittorre"),
            port: 6881,
            uploaded: 0,
            downloaded: 0,
            left,
            compact: 1,
        }
    }
}

/// The text of the info hash as a tracker expects it: lowercase hex with a
/// `%` before each pair of digits.
pub fn encode_info_hash(info_hash: &[u8; 20]) -> (encoded: String)
    ensures
        encoded@ == percent_encoded(hex_lower(info_hash@)),
{
    let hex = hex_encode(info_hash.as_slice());
    percent_encode_hash(hex.as_str())
}

/// The announce URL: the tracker's address, `?`, the encoded request
/// parameters, and the info hash as `&info_hash=` followed by its encoding.
pub fn tracker_url(announce: &str, request_params: &str, info_hash: &[u8; 20]) -> (url: String)
    ensures
        url@ == announce@ + "?"@ + request_params@ + "&info_hash="@ + percent_encoded(
            hex_lower(info_hash@),
        ),
{
    let encoded = encode_info_hash(info_hash);
    let mut url = String::from_str(announce);
    url.append("?");
    url.append(request_params);
    url.append("&info_hash=");
    url.append(encoded.as_str());
    url
}

} // verus!
