//! Receiving a new kernel image over UDP, reliably enough to install: the sender announces
//! the size and a CRC-32, sends the image in numbered chunks that are each acknowledged
//! (and sent again until they are), and says when it is done. Only a complete image whose
//! CRC-32 matches comes out.
//!
//! Datagrams, little endian:
//!
//! | from the sender           | answer                                  |
//! |---------------------------|-----------------------------------------|
//! | `B` size:u32 crc:u32      | `K` (begun), or `X` and a reason        |
//! | `D` offset:u32 bytes...   | `A` offset:u32, or `X` and a reason     |
//! | `E`                       | the image comes out (the kernel answers)|

use crate::bytes;
use vstd::prelude::*;
use vstd::string::StringSliceAdditionalSpecFns;

verus! {

/// The UDP port updates arrive on.
pub const PORT: u16 = 2324;

/// Bytes of image in a data datagram, at most: every chunk but the last is this long.
pub const CHUNK: usize = 1024;

/// The biggest image taken: far more than a kernel needs, far less than the heap.
pub const MAX_IMAGE: usize = 8 * 1024 * 1024;

/// One step of the CRC-32 shift register.
pub open spec fn crc_shift(crc: u32) -> u32 {
    if crc & 1u32 != 0 {
        (crc >> 1u32) ^ 0xEDB8_8320u32
    } else {
        crc >> 1u32
    }
}

/// `steps` steps of the shift register.
pub open spec fn crc_shifts(crc: u32, steps: nat) -> u32
    decreases steps,
{
    if steps == 0 {
        crc
    } else {
        crc_shift(crc_shifts(crc, (steps - 1) as nat))
    }
}

/// The shift register after `data`, from all ones.
pub open spec fn crc_register(data: Seq<u8>) -> u32
    decreases data.len(),
{
    if data.len() == 0 {
        0xFFFF_FFFFu32
    } else {
        crc_shifts(crc_register(data.drop_last()) ^ (data.last() as u32), 8)
    }
}

/// CRC-32 (IEEE 802.3) of `data`.
pub open spec fn crc_of(data: Seq<u8>) -> u32 {
    !crc_register(data)
}

/// CRC-32 (IEEE 802.3, the one zip and Ethernet use) of `data`.
pub fn crc32(data: &[u8]) -> (r: u32)
    ensures
        r == crc_of(data@),
{
    let mut crc: u32 = 0xFFFF_FFFF;
    let mut i: usize = 0;
    assert(data@.subrange(0, 0) =~= Seq::<u8>::empty());
    while i < data.len()
        invariant
            i <= data@.len(),
            crc == crc_register(data@.subrange(0, i as int)),
        decreases data@.len() - i,
    {
        crc = crc ^ (data[i] as u32);
        let ghost start = crc;
        let mut step: u32 = 0;
        while step < 8
            invariant
                step <= 8,
                crc == crc_shifts(start, step as nat),
            decreases 8 - step,
        {
            crc = if crc & 1 != 0 {
                (crc >> 1u32) ^ 0xEDB8_8320
            } else {
                crc >> 1u32
            };
            step += 1;
        }
        i += 1;
        assert(data@.subrange(0, i as int).drop_last() =~= data@.subrange(0, i - 1));
    }
    assert(data@.subrange(0, i as int) =~= data@);
    !crc
}

/// What to do with a datagram's result.
#[derive(Debug, PartialEq, Eq)]
pub enum Response {
    /// Answer the sender with this.
    Reply(Vec<u8>),
    /// The whole image arrived and its CRC-32 matches: install it, and answer the sender.
    Complete(Vec<u8>),
}

/// What a [`Response`] holds.
pub enum Answer {
    Reply(Seq<u8>),
    Complete(Seq<u8>),
}

impl Response {
    pub open spec fn view(&self) -> Answer {
        match self {
            Response::Reply(bytes) => Answer::Reply(bytes@),
            Response::Complete(image) => Answer::Complete(image@),
        }
    }
}

/// The answer that refuses a datagram: `X` and the reason.
pub open spec fn refusal(reason: Seq<char>) -> Answer {
    Answer::Reply(seq![0x58u8] + vstd::utf8::encode_utf8(reason))
}

fn refuse(reason: &str) -> (r: Response)
    ensures
        r@ == refusal(reason@),
{
    let mut reply: Vec<u8> = Vec::new();
    reply.push(0x58);
    bytes::push_all(&mut reply, reason.as_bytes());
    assert(reply@ =~= seq![0x58u8] + reason.spec_bytes());
    Response::Reply(reply)
}

/// How many chunks an image of `size` bytes is sent in.
pub open spec fn chunk_count(size: int) -> int {
    (size + CHUNK - 1) / CHUNK as int
}

/// An update on its way.
pub struct Progress {
    pub crc: u32,
    /// The image, as far as it has arrived.
    pub image: Seq<u8>,
    /// Which chunks have arrived.
    pub arrived: Seq<bool>,
}

impl Progress {
    pub open spec fn wf(self) -> bool {
        &&& 0 < self.image.len() <= MAX_IMAGE
        &&& self.arrived.len() == chunk_count(self.image.len() as int)
    }

    pub open spec fn all_arrived(self) -> bool {
        forall|i: int| 0 <= i < self.arrived.len() ==> #[trigger] self.arrived[i]
    }

    /// How long the chunk at `offset` has to be.
    pub open spec fn chunk_length(self, offset: int) -> int {
        if self.image.len() - offset < CHUNK {
            self.image.len() - offset
        } else {
            CHUNK as int
        }
    }
}

/// What a datagram does to the update on its way, and how it is answered.
pub open spec fn handled(state: Option<Progress>, datagram: Seq<u8>) -> (Option<Progress>, Answer) {
    if datagram.len() == 0 {
        (state, refusal("unknown"@))
    } else if datagram[0] == 0x42 {
        if datagram.len() < 9 {
            (state, refusal("short begin"@))
        } else {
            let size = bytes::le32(datagram, 1);
            if size == 0 || size > MAX_IMAGE {
                (None, refusal("bad size"@))
            } else {
                let begun = Progress {
                    crc: bytes::le32(datagram, 5),
                    image: bytes::zeros(size as nat),
                    arrived: Seq::new(chunk_count(size as int) as nat, |i: int| false),
                };
                (Some(begun), Answer::Reply(seq![0x4Bu8]))
            }
        }
    } else if datagram[0] == 0x44 {
        match state {
            None => (state, refusal("not begun"@)),
            Some(progress) => if datagram.len() < 5 {
                (state, refusal("short data"@))
            } else {
                let offset = bytes::le32(datagram, 1) as int;
                let chunk = datagram.subrange(5, datagram.len() as int);
                if offset % CHUNK as int != 0 || offset >= progress.image.len() || chunk.len()
                    != progress.chunk_length(offset) {
                    (state, refusal("bad chunk"@))
                } else {
                    let index = offset / CHUNK as int;
                    let after = if progress.arrived[index] {
                        progress
                    } else {
                        Progress {
                            crc: progress.crc,
                            image: bytes::splice(progress.image, offset, chunk),
                            arrived: progress.arrived.update(index, true),
                        }
                    };
                    (
                        Some(after),
                        Answer::Reply(seq![0x41u8] + bytes::le32_bytes(offset as u32)),
                    )
                }
            },
        }
    } else if datagram[0] == 0x45 {
        match state {
            None => (state, refusal("not begun"@)),
            Some(progress) => if !progress.all_arrived() {
                (state, refusal("chunks missing"@))
            } else if crc_of(progress.image) != progress.crc {
                (None, refusal("CRC-32 mismatch"@))
            } else {
                (None, Answer::Complete(progress.image))
            },
        }
    } else {
        (state, refusal("unknown"@))
    }
}

/// How many chunks haven't arrived.
spec fn count_missing(arrived: Seq<bool>) -> nat
    decreases arrived.len(),
{
    if arrived.len() == 0 {
        0
    } else {
        count_missing(arrived.drop_last()) + if arrived.last() {
            0nat
        } else {
            1nat
        }
    }
}

proof fn lemma_chunk_arrives(arrived: Seq<bool>, i: int)
    requires
        0 <= i < arrived.len(),
        !arrived[i],
    ensures
        count_missing(arrived.update(i, true)) + 1 == count_missing(arrived),
    decreases arrived.len(),
{
    let after = arrived.update(i, true);
    if i == arrived.len() - 1 {
        assert(after.drop_last() =~= arrived.drop_last());
    } else {
        assert(after.drop_last() =~= arrived.drop_last().update(i, true));
        lemma_chunk_arrives(arrived.drop_last(), i);
    }
}

proof fn lemma_none_missing(arrived: Seq<bool>)
    ensures
        count_missing(arrived) == 0 <==> forall|i: int|
            0 <= i < arrived.len() ==> #[trigger] arrived[i],
    decreases arrived.len(),
{
    if arrived.len() > 0 {
        let before = arrived.drop_last();
        lemma_none_missing(before);
        if count_missing(arrived) == 0 {
            assert forall|i: int| 0 <= i < arrived.len() implies #[trigger] arrived[i] by {
                if i < before.len() {
                    assert(before[i]);
                }
            }
        } else if forall|i: int| 0 <= i < arrived.len() ==> #[trigger] arrived[i] {
            assert forall|i: int| 0 <= i < before.len() implies #[trigger] before[i] by {
                assert(arrived[i]);
            }
            assert(arrived[arrived.len() - 1]);
        }
    }
}

proof fn lemma_all_missing(n: nat)
    ensures
        count_missing(Seq::new(n, |i: int| false)) == n,
    decreases n,
{
    if n > 0 {
        let s = Seq::new(n, |i: int| false);
        assert(s.drop_last() =~= Seq::new((n - 1) as nat, |i: int| false));
        lemma_all_missing((n - 1) as nat);
    }
}

struct Transfer {
    crc: u32,
    image: Vec<u8>,
    /// Which chunks have arrived.
    arrived: Vec<bool>,
    missing: usize,
}

impl Transfer {
    spec fn view(&self) -> Progress {
        Progress { crc: self.crc, image: self.image@, arrived: self.arrived@ }
    }

    spec fn wf(&self) -> bool {
        self@.wf() && self.missing == count_missing(self.arrived@)
    }
}

/// Takes one update at a time.
pub struct Receiver {
    transfer: Option<Transfer>,
}

impl Default for Receiver {
    fn default() -> (r: Self)
        ensures
            r.wf(),
            r@ is None,
    {
        Receiver { transfer: None }
    }
}

impl Receiver {
    /// The update on its way.
    pub closed spec fn view(&self) -> Option<Progress> {
        match self.transfer {
            None => None,
            Some(transfer) => Some(transfer@),
        }
    }

    pub closed spec fn wf(&self) -> bool {
        self.transfer matches Some(transfer) ==> transfer.wf()
    }

    pub fn new() -> (r: Self)
        ensures
            r.wf(),
            r@ is None,
    {
        Receiver { transfer: None }
    }

    /// Forgets an update in progress.
    pub fn reset(&mut self)
        ensures
            final(self).wf(),
            final(self)@ is None,
    {
        self.transfer = None;
    }

    /// Takes a datagram from the sender.
    pub fn handle(&mut self, datagram: &[u8]) -> (r: Response)
        requires
            old(self).wf(),
        ensures
            final(self).wf(),
            (final(self)@, r@) == handled(old(self)@, datagram@),
    {
        if datagram.len() == 0 {
            return refuse("unknown");
        }
        match datagram[0] {
            0x42 => self.begin(datagram),
            0x44 => self.data(datagram),
            0x45 => self.finish(datagram),
            _ => refuse("unknown"),
        }
    }

    /// Takes a `B` datagram.
    fn begin(&mut self, datagram: &[u8]) -> (r: Response)
        requires
            old(self).wf(),
            datagram@.len() > 0,
            datagram@[0] == 0x42,
        ensures
            final(self).wf(),
            (final(self)@, r@) == handled(old(self)@, datagram@),
    {
        if datagram.len() < 9 {
            return refuse("short begin");
        }
        let size = bytes::le32_at(datagram, 1) as usize;
        let crc = bytes::le32_at(datagram, 5);
        if size == 0 || size > MAX_IMAGE {
            self.transfer = None;
            return refuse("bad size");
        }
        let chunks: usize = (size + CHUNK - 1) / CHUNK;
        let image: Vec<u8> = vec![0u8; size];
        let arrived: Vec<bool> = vec![false; chunks];
        proof {
            assert(image@ =~= bytes::zeros(size as nat));
            assert(arrived@ =~= Seq::new(chunks as nat, |i: int| false));
            lemma_all_missing(chunks as nat);
        }
        self.transfer = Some(Transfer { crc, image, arrived, missing: chunks });
        let reply: Vec<u8> = vec![0x4Bu8; 1];
        assert(reply@ =~= seq![0x4Bu8]);
        Response::Reply(reply)
    }

    /// Takes a `D` datagram.
    fn data(&mut self, datagram: &[u8]) -> (r: Response)
        requires
            old(self).wf(),
            datagram@.len() > 0,
            datagram@[0] == 0x44,
        ensures
            final(self).wf(),
            (final(self)@, r@) == handled(old(self)@, datagram@),
    {
        let mut transfer = match self.transfer.take() {
            Some(transfer) => transfer,
            None => return refuse("not begun"),
        };
        if datagram.len() < 5 {
            self.transfer = Some(transfer);
            return refuse("short data");
        }
        let offset = bytes::le32_at(datagram, 1) as usize;
        let chunk = &datagram[5..datagram.len()];
        // Chunks start on chunk boundaries and fill them, all but the last.
        if offset % CHUNK != 0 || offset >= transfer.image.len() {
            self.transfer = Some(transfer);
            return refuse("bad chunk");
        }
        let left: usize = transfer.image.len() - offset;
        let expected: usize = if left < CHUNK {
            left
        } else {
            CHUNK
        };
        if chunk.len() != expected {
            self.transfer = Some(transfer);
            return refuse("bad chunk");
        }
        let index: usize = offset / CHUNK;
        if !transfer.arrived[index] {
            proof {
                lemma_chunk_arrives(transfer.arrived@, index as int);
            }
            bytes::overwrite(&mut transfer.image, offset, chunk);
            transfer.arrived[index] = true;
            transfer.missing -= 1;
        }
        self.transfer = Some(transfer);
        let mut ack: Vec<u8> = Vec::new();
        ack.push(0x41);
        bytes::push_le32(&mut ack, offset as u32);
        assert(ack@ =~= seq![0x41u8] + bytes::le32_bytes(offset as u32));
        Response::Reply(ack)
    }

    /// Takes an `E` datagram.
    fn finish(&mut self, datagram: &[u8]) -> (r: Response)
        requires
            old(self).wf(),
            datagram@.len() > 0,
            datagram@[0] == 0x45,
        ensures
            final(self).wf(),
            (final(self)@, r@) == handled(old(self)@, datagram@),
    {
        let transfer = match self.transfer.take() {
            Some(transfer) => transfer,
            None => return refuse("not begun"),
        };
        proof {
            lemma_none_missing(transfer.arrived@);
        }
        if transfer.missing != 0 {
            self.transfer = Some(transfer);
            return refuse("chunks missing");
        }
        if crc32(&transfer.image) != transfer.crc {
            return refuse("CRC-32 mismatch");
        }
        Response::Complete(transfer.image)
    }
}

/// Only a complete image whose CRC-32 matches comes out, and it comes out once.
pub proof fn only_whole_images_come_out(state: Option<Progress>, datagram: Seq<u8>)
    requires
        handled(state, datagram).1 is Complete,
    ensures
        state is Some,
        state->0.all_arrived(),
        handled(state, datagram).1 == Answer::Complete(state->0.image),
        crc_of(state->0.image) == state->0.crc,
        handled(state, datagram).0 is None,
{
}

/// Whether what has arrived of an update belongs to `image`.
pub open spec fn is_part_of(progress: Progress, image: Seq<u8>) -> bool {
    &&& progress.wf()
    &&& progress.image.len() == image.len()
    &&& progress.crc == crc_of(image)
    &&& forall|k: int|
        0 <= k < image.len() && progress.arrived[k / CHUNK as int] ==> #[trigger] progress.image[k]
            == image[k]
}

/// The datagram that carries chunk `index` of `image`.
pub open spec fn chunk_datagram(image: Seq<u8>, index: int) -> Seq<u8> {
    let from = index * CHUNK;
    let to = if from + CHUNK < image.len() {
        from + CHUNK
    } else {
        image.len() as int
    };
    seq![0x44u8] + bytes::le32_bytes(from as u32) + image.subrange(from, to)
}

/// A sent chunk is acknowledged and kept, in whatever order and however often chunks come.
pub proof fn sent_chunks_are_kept(progress: Progress, image: Seq<u8>, index: int)
    requires
        is_part_of(progress, image),
        0 <= index < chunk_count(image.len() as int),
    ensures
        handled(Some(progress), chunk_datagram(image, index)).1 == Answer::Reply(
            seq![0x41u8] + bytes::le32_bytes((index * CHUNK) as u32),
        ),
        handled(Some(progress), chunk_datagram(image, index)).0 matches Some(after) && is_part_of(
            after,
            image,
        ) && after.arrived == progress.arrived.update(index, true),
{
    let datagram = chunk_datagram(image, index);
    let offset = index * CHUNK;
    assert(0 <= offset < image.len());
    assert(bytes::le32(datagram, 1) == offset) by {
        bytes::lemma_words_round_trip(0, offset as u32);
        assert(datagram.subrange(1, 5) =~= bytes::le32_bytes(offset as u32));
        bytes::lemma_words_in_subrange(datagram, 1, 5, 0);
    }
    let to = if offset + CHUNK < image.len() {
        offset + CHUNK
    } else {
        image.len() as int
    };
    let chunk = datagram.subrange(5, datagram.len() as int);
    assert(chunk =~= image.subrange(offset, to));
    assert(offset / CHUNK as int == index);
    let after = handled(Some(progress), datagram).0->0;
    assert(after.arrived =~= progress.arrived.update(index, true));
    assert forall|k: int|
        0 <= k < image.len() && after.arrived[k / CHUNK as int] implies #[trigger] after.image[k]
        == image[k] by {
        if k / CHUNK as int == index {
            assert(offset <= k < offset + CHUNK);
            if progress.arrived[index] {
                assert(progress.image[k] == image[k]);
            } else {
                assert(chunk[k - offset] == image[k]);
            }
        } else {
            assert(progress.arrived[k / CHUNK as int]);
            assert(progress.image[k] == image[k]);
            assert(!(offset <= k < offset + CHUNK));
        }
    }
}

/// Once every chunk of an image has been sent, the image comes out.
pub proof fn the_sent_image_comes_out(progress: Progress, image: Seq<u8>)
    requires
        is_part_of(progress, image),
        progress.all_arrived(),
    ensures
        handled(Some(progress), seq![0x45u8]) == (None::<Progress>, Answer::Complete(image)),
{
    assert(progress.image =~= image) by {
        assert forall|k: int| 0 <= k < image.len() implies progress.image[k] == image[k] by {
            assert(0 <= (k / CHUNK as int) && (k / CHUNK as int) < progress.arrived.len());
            assert(progress.arrived[k / CHUNK as int]);
        }
    }
}

/// Announcing an image starts over, whatever was on its way.
pub proof fn beginning_starts_over(state: Option<Progress>, image: Seq<u8>)
    requires
        0 < image.len() <= MAX_IMAGE,
    ensures
        ({
            let begin = seq![0x42u8] + bytes::le32_bytes(image.len() as u32) + bytes::le32_bytes(
                crc_of(image),
            );
            let (after, answer) = handled(state, begin);
            &&& answer == Answer::Reply(seq![0x4Bu8])
            &&& after matches Some(progress) && is_part_of(progress, image)
            &&& forall|i: int| 0 <= i < after->0.arrived.len() ==> !#[trigger] after->0.arrived[i]
        }),
{
    let begin = seq![0x42u8] + bytes::le32_bytes(image.len() as u32) + bytes::le32_bytes(
        crc_of(image),
    );
    bytes::lemma_words_round_trip(0, image.len() as u32);
    bytes::lemma_words_round_trip(0, crc_of(image));
    assert(begin.subrange(1, 5) =~= bytes::le32_bytes(image.len() as u32));
    assert(begin.subrange(5, 9) =~= bytes::le32_bytes(crc_of(image)));
    bytes::lemma_words_in_subrange(begin, 1, 5, 0);
    bytes::lemma_words_in_subrange(begin, 5, 9, 0);
}

/// The update on its way after `datagrams`, one after the other.
pub open spec fn all_handled(state: Option<Progress>, datagrams: Seq<Seq<u8>>) -> Option<Progress>
    decreases datagrams.len(),
{
    if datagrams.len() == 0 {
        state
    } else {
        handled(all_handled(state, datagrams.drop_last()), datagrams.last()).0
    }
}

/// Whether a datagram announces an image.
pub open spec fn announces(datagram: Seq<u8>) -> bool {
    datagram.len() >= 9 && datagram[0] == 0x42
}

/// Whether a datagram carries chunk `index` of an image of `size` bytes.
pub open spec fn carries(datagram: Seq<u8>, size: int, index: int) -> bool {
    &&& datagram.len() >= 5
    &&& datagram[0] == 0x44
    &&& 0 <= index < chunk_count(size)
    &&& bytes::le32(datagram, 1) == index * CHUNK
    &&& datagram.len() - 5 == if size - index * CHUNK < CHUNK {
        size - index * CHUNK
    } else {
        CHUNK as int
    }
}

/// Whether datagram `k` is the first that carries chunk `index`.
pub open spec fn carried_first(datagrams: Seq<Seq<u8>>, size: int, index: int, k: int) -> bool {
    &&& 0 <= k < datagrams.len()
    &&& carries(datagrams[k], size, index)
    &&& forall|j: int| 0 <= j < k ==> !carries(#[trigger] datagrams[j], size, index)
}

/// Whether chunk `index` is there just if a datagram carried it, and as the first one did.
pub open spec fn as_first_carried(
    datagrams: Seq<Seq<u8>>,
    progress: Progress,
    index: int,
) -> bool {
    let size = progress.image.len() as int;
    &&& progress.arrived[index] <==> exists|k: int| #[trigger]
        carried_first(datagrams, size, index, k)
    &&& forall|k: int, i: int|
        #[trigger] carried_first(datagrams, size, index, k) && 5 <= i < datagrams[k].len()
            ==> progress.image[index * CHUNK + i - 5] == #[trigger] datagrams[k][i]
}

/// A carried chunk is taken unless it is there; all else that doesn't announce or finish an
/// image changes nothing.
proof fn lemma_datagram_taken(progress: Progress, datagram: Seq<u8>)
    requires
        progress.wf(),
        !announces(datagram),
        handled(Some(progress), datagram).0 is Some,
    ensures
        ({
            let after = handled(Some(progress), datagram).0->0;
            let size = progress.image.len() as int;
            &&& after.wf()
            &&& after.crc == progress.crc
            &&& after.image.len() == progress.image.len()
            &&& forall|index: int|
                #![trigger carries(datagram, size, index)]
                #![trigger after.arrived[index]]
                0 <= index < after.arrived.len() ==> after.arrived[index] == (
                progress.arrived[index] || carries(datagram, size, index))
            &&& forall|i: int|
                0 <= i < size && !(carries(datagram, size, i / CHUNK as int)
                    && !progress.arrived[i / CHUNK as int]) ==> #[trigger] after.image[i]
                    == progress.image[i]
            &&& forall|index: int, i: int|
                #![trigger carries(datagram, size, index), datagram[i]]
                carries(datagram, size, index) && !progress.arrived[index] && 5 <= i
                    < datagram.len() ==> after.image[index * CHUNK + i - 5] == datagram[i]
        }),
{
    let after = handled(Some(progress), datagram).0->0;
    let size = progress.image.len() as int;
    if datagram.len() >= 5 && datagram[0] == 0x44 {
        let offset = bytes::le32(datagram, 1) as int;
        let at = offset / CHUNK as int;
        let chunk = datagram.subrange(5, datagram.len() as int);
        if offset % CHUNK as int == 0 && offset < size && chunk.len() == progress.chunk_length(
            offset,
        ) {
            assert(carries(datagram, size, at));
            assert forall|index: int| carries(datagram, size, index) implies index == at by {}
            assert forall|i: int|
                0 <= i < size && !(carries(datagram, size, i / CHUNK as int)
                    && !progress.arrived[i / CHUNK as int]) implies #[trigger] after.image[i]
                == progress.image[i] by {
                if !progress.arrived[at] {
                    assert(i / CHUNK as int != at);
                    assert(!(offset <= i < offset + CHUNK));
                }
            }
            assert forall|index: int, i: int|
                #![trigger carries(datagram, size, index), datagram[i]]
                carries(datagram, size, index) && !progress.arrived[index] && 5 <= i
                    < datagram.len() implies after.image[index * CHUNK + i - 5] == datagram[i] by {
                assert(index == at);
                assert(chunk[i - 5] == datagram[i]);
                assert(after.image[offset + (i - 5)] == chunk[i - 5]);
            }
        } else {
            assert forall|index: int| !#[trigger] carries(datagram, size, index) by {
                if carries(datagram, size, index) {
                    assert(offset == index * CHUNK);
                    assert(offset % CHUNK as int == 0);
                }
            }
        }
    }
}

/// In whatever order, however often and among whatever else chunks come: while an image is on
/// its way, each chunk that came is in it, as it was when it was first acknowledged, and no
/// other is counted as there.
pub proof fn chunks_are_as_first_acknowledged(begun: Progress, datagrams: Seq<Seq<u8>>)
    requires
        begun.wf(),
        forall|i: int| 0 <= i < begun.arrived.len() ==> !#[trigger] begun.arrived[i],
        forall|k: int| 0 <= k < datagrams.len() ==> !announces(#[trigger] datagrams[k]),
        all_handled(Some(begun), datagrams) is Some,
    ensures
        ({
            let progress = all_handled(Some(begun), datagrams)->0;
            &&& progress.wf()
            &&& progress.crc == begun.crc
            &&& progress.image.len() == begun.image.len()
            &&& forall|index: int|
                0 <= index < progress.arrived.len() ==> #[trigger] as_first_carried(
                    datagrams,
                    progress,
                    index,
                )
        }),
    decreases datagrams.len(),
{
    let size = begun.image.len() as int;
    let progress = all_handled(Some(begun), datagrams)->0;
    if datagrams.len() == 0 {
        assert forall|index: int| 0 <= index < progress.arrived.len() implies #[trigger]
            as_first_carried(datagrams, progress, index) by {}
    } else {
        let before = datagrams.drop_last();
        let last = datagrams.last();
        let n = before.len() as int;
        assert forall|k: int| 0 <= k < before.len() implies !announces(#[trigger] before[k]) by {
            assert(before[k] == datagrams[k]);
        }
        assert(!announces(datagrams[n]));
        assert(all_handled(Some(begun), before) is Some);
        chunks_are_as_first_acknowledged(begun, before);
        let was = all_handled(Some(begun), before)->0;
        lemma_datagram_taken(was, last);
        assert forall|index: int| 0 <= index < progress.arrived.len() implies #[trigger]
            as_first_carried(datagrams, progress, index) by {
            lemma_carried_once_more(datagrams, was, progress, index);
        }
    }
}

proof fn lemma_carried_once_more(
    datagrams: Seq<Seq<u8>>,
    was: Progress,
    progress: Progress,
    index: int,
)
    requires
        datagrams.len() > 0,
        was.wf(),
        !announces(datagrams.last()),
        handled(Some(was), datagrams.last()).0 == Some(progress),
        0 <= index < was.arrived.len(),
        as_first_carried(datagrams.drop_last(), was, index),
    ensures
        as_first_carried(datagrams, progress, index),
{
    let before = datagrams.drop_last();
    let last = datagrams.last();
    let n = before.len() as int;
    let size = was.image.len() as int;
    lemma_datagram_taken(was, last);
    assert forall|k: int| 0 <= k < n implies #[trigger] carried_first(datagrams, size, index, k)
        == carried_first(before, size, index, k) by {
        assert forall|j: int| 0 <= j < k + 1 implies #[trigger] before[j] == datagrams[j] by {}
        if carried_first(before, size, index, k) {
            assert forall|j: int| 0 <= j < k implies !carries(
                #[trigger] datagrams[j],
                size,
                index,
            ) by {
                assert(before[j] == datagrams[j]);
            }
        }
    }
    if was.arrived[index] {
        let k = choose|k: int| #[trigger] carried_first(before, size, index, k);
        assert(carried_first(datagrams, size, index, k));
        assert(before[k] == datagrams[k]);
        assert(!carried_first(datagrams, size, index, n));
    } else {
        if carries(last, size, index) {
            assert forall|j: int| 0 <= j < n implies !carries(
                #[trigger] datagrams[j],
                size,
                index,
            ) by {
                if carries(datagrams[j], size, index) {
                    lemma_first_carried(before, size, index, j);
                    assert(before[j] == datagrams[j]);
                }
            }
            assert(datagrams[n] == last);
            assert(carried_first(datagrams, size, index, n));
        }
    }
    assert forall|k: int, i: int|
        #[trigger] carried_first(datagrams, size, index, k) && 5 <= i < datagrams[k].len() implies
        progress.image[index * CHUNK + i - 5] == #[trigger] datagrams[k][i] by {
        let at = index * CHUNK + i - 5;
        assert(at / CHUNK as int == index);
        if k < n {
            assert(carried_first(before, size, index, k));
            assert(before[k] == datagrams[k]);
            assert(was.arrived[index]);
            assert(was.image[index * CHUNK + i - 5] == before[k][i]);
            assert(progress.image[at] == was.image[at]);
        } else {
            assert(datagrams[n] == last);
            assert(!was.arrived[index]) by {
                if was.arrived[index] {
                    let j = choose|j: int| #[trigger] carried_first(before, size, index, j);
                    assert(before[j] == datagrams[j]);
                    assert(!carries(datagrams[j], size, index));
                }
            }
            assert(carries(last, size, index));
            assert(last[i] == datagrams[k][i]);
        }
    }
}

/// If one carried the chunk, one did so first.
proof fn lemma_first_carried(datagrams: Seq<Seq<u8>>, size: int, index: int, j: int)
    requires
        0 <= j < datagrams.len(),
        carries(datagrams[j], size, index),
    ensures
        exists|k: int| #[trigger] carried_first(datagrams, size, index, k),
    decreases j,
{
    if exists|m: int| 0 <= m < j && carries(#[trigger] datagrams[m], size, index) {
        let m = choose|m: int| 0 <= m < j && carries(#[trigger] datagrams[m], size, index);
        lemma_first_carried(datagrams, size, index, m);
    } else {
        assert(carried_first(datagrams, size, index, j));
    }
}

/// An announcement is taken just if the image has at least one byte and at most 8MB, and ends what
/// was on its way in any case. Of what was announced nothing has arrived, and it is as many chunks
/// of 1024 bytes as it fills or begins.
pub proof fn announcements_are_checked(state: Option<Progress>, size: u32, crc: u32, rest: Seq<u8>)
    ensures
        ({
            let begin = seq![0x42u8] + bytes::le32_bytes(size) + bytes::le32_bytes(crc) + rest;
            let (after, answer) = handled(state, begin);
            if 0 < size <= 0x80_0000 {
                &&& answer == Answer::Reply(seq![0x4Bu8])
                &&& after matches Some(progress) && progress.crc == crc && progress.image.len()
                    == size && 1024 * (progress.arrived.len() - 1) < size && size <= 1024
                    * progress.arrived.len() && forall|i: int|
                    0 <= i < progress.arrived.len() ==> !#[trigger] progress.arrived[i]
            } else {
                after is None && answer == refusal("bad size"@)
            }
        }),
{
    let begin = seq![0x42u8] + bytes::le32_bytes(size) + bytes::le32_bytes(crc) + rest;
    bytes::lemma_words_round_trip(0, size);
    bytes::lemma_words_round_trip(0, crc);
    assert(begin.subrange(1, 5) =~= bytes::le32_bytes(size));
    assert(begin.subrange(5, 9) =~= bytes::le32_bytes(crc));
    bytes::lemma_words_in_subrange(begin, 1, 5, 0);
    bytes::lemma_words_in_subrange(begin, 5, 9, 0);
}

/// A chunk is acknowledged, with its offset, just if it starts at a multiple of 1024 in the image
/// and is 1024 bytes long or goes to the image's end. Any other is refused and changes nothing.
pub proof fn chunks_are_checked(progress: Progress, offset: u32, chunk: Seq<u8>)
    requires
        progress.wf(),
    ensures
        ({
            let data = seq![0x44u8] + bytes::le32_bytes(offset) + chunk;
            let (after, answer) = handled(Some(progress), data);
            let left = progress.image.len() - offset;
            if offset % 1024 == 0 && left > 0 && (chunk.len() == left && left <= 1024
                || chunk.len() == 1024 && left >= 1024) {
                &&& answer == Answer::Reply(seq![0x41u8] + bytes::le32_bytes(offset))
                &&& after matches Some(taken) && taken.arrived == progress.arrived.update(
                    offset as int / 1024,
                    true,
                ) && taken.crc == progress.crc
            } else {
                after == Some(progress) && answer == refusal("bad chunk"@)
            }
        }),
        handled(None, seq![0x44u8] + bytes::le32_bytes(offset) + chunk) == (
            None::<Progress>,
            refusal("not begun"@),
        ),
{
    let data = seq![0x44u8] + bytes::le32_bytes(offset) + chunk;
    bytes::lemma_words_round_trip(0, offset);
    assert(data.subrange(1, 5) =~= bytes::le32_bytes(offset));
    bytes::lemma_words_in_subrange(data, 1, 5, 0);
    assert(data.subrange(5, data.len() as int) =~= chunk);
    let index = offset as int / 1024;
    if offset < progress.image.len() && progress.arrived[index] {
        assert(progress.arrived.update(index, true) =~= progress.arrived);
    }
}

/// An end before every chunk is there is refused and changes nothing, so that the rest can still
/// come. One whose image has another CRC-32 than announced is refused and forgets the image.
pub proof fn ends_are_checked(progress: Progress, rest: Seq<u8>)
    ensures
        ({
            let end = seq![0x45u8] + rest;
            let (after, answer) = handled(Some(progress), end);
            &&& (exists|i: int| 0 <= i < progress.arrived.len() && !#[trigger] progress.arrived[i])
                ==> after == Some(progress) && answer == refusal("chunks missing"@)
            &&& progress.all_arrived() && crc_of(progress.image) != progress.crc ==> after is None
                && answer == refusal("CRC-32 mismatch"@)
        }),
        handled(None, seq![0x45u8] + rest) == (None::<Progress>, refusal("not begun"@)),
{
}

/// A datagram of another kind, an empty one or a cut off one is refused and changes nothing.
pub proof fn other_datagrams_change_nothing(state: Option<Progress>, datagram: Seq<u8>)
    ensures
        datagram.len() == 0 || (datagram[0] != 0x42 && datagram[0] != 0x44 && datagram[0] != 0x45)
            ==> handled(state, datagram) == (state, refusal("unknown"@)),
        0 < datagram.len() < 9 && datagram[0] == 0x42 ==> handled(state, datagram) == (
            state,
            refusal("short begin"@),
        ),
        0 < datagram.len() < 5 && datagram[0] == 0x44 && state is Some ==> handled(
            state,
            datagram,
        ) == (state, refusal("short data"@)),
{
}

} // verus!
