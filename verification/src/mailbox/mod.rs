//! Typed VideoCore mailbox property interface: each firmware tag is a type carrying its ID
//! and its request and response layouts, so a request can't be paired with the wrong tag
//! and a response can't be read at the wrong offset.
//!
//! ```ignore
//! let temperature = mailbox::query::<GetTemperature, _>(&transport, SensorId::soc())?;
//!
//! let mut batch = Batch::new();
//! let revision = batch.add::<GetBoardRevision>(());
//! let memory = batch.add::<GetArmMemory>(());
//! let replies = batch.send(&transport)?;
//! let memory = replies.get(memory)?;
//! ```
//!
//! Message layout: `[size, code, (tag, value size, tag code, value words...)*, end]`.
//! Delivering a message is left to a `Transport`: the kernel's hardware mailbox, or a
//! fake firmware in tests.

use crate::text;
use crate::text::{push_decimal, push_hex};
use core::marker::PhantomData;
use vstd::prelude::*;

pub mod tags;

verus! {

/// Size of a message buffer in 32-bit words.
pub const MESSAGE_WORDS: usize = 256;

pub const REQUEST: u32 = 0;

pub const RESPONSE_OK: u32 = 0x8000_0000;

/// Set in a tag's code once the firmware has answered it; the low bits are the response
/// length in bytes.
pub const TAG_RESPONSE: u32 = 0x8000_0000;

pub const END_TAG: u32 = 0;

/// Words before a tag's value: ID, value buffer size, tag code.
pub const TAG_HEADER_WORDS: usize = 3;

/// A message buffer. Only `Batch` can create one, so every message a `Transport` sees is well
/// formed.
pub struct Message {
    words: Vec<u32>,
}

impl Message {
    pub closed spec fn view(&self) -> Seq<u32> {
        self.words@
    }

    /// It is as long as message buffers are.
    pub open spec fn wf(&self) -> bool {
        self@.len() == MESSAGE_WORDS
    }

    /// The buffer, for handing to the firmware.
    pub fn words(&self) -> (r: &[u32])
        ensures
            r@ == self@,
    {
        &self.words
    }

    /// Puts what the firmware answered at word `i` in the buffer.
    pub fn set_word(&mut self, i: usize, word: u32)
        requires
            old(self).wf(),
            i < MESSAGE_WORDS,
        ensures
            final(self).wf(),
            final(self)@ == old(self)@.update(i as int, word),
    {
        self.words.set(i, word);
    }
}

/// Delivers a property message to the firmware and waits for it to answer in place.
pub trait Transport {
    /// Whether the firmware may answer `request` with `reply`.
    open spec fn answers(&self, request: Seq<u32>, reply: Seq<u32>) -> bool {
        true
    }

    fn call(&self, msg: &mut Message)
        requires
            old(msg).wf(),
        ensures
            final(msg).wf(),
            self.answers(old(msg)@, final(msg)@),
    ;
}

/// Types that are nothing but 32-bit words, so they can be copied into and out of a message
/// buffer as-is.
pub trait Words: Sized {
    /// How many words there are.
    spec fn size() -> nat;

    spec fn words(self) -> Seq<u32>;

    proof fn lemma_size(self)
        ensures
            self.words().len() == Self::size(),
    ;

    /// How many words there are.
    fn count() -> (r: usize)
        ensures
            r == Self::size(),
    ;

    /// The words, one after another.
    fn to_words(self) -> (r: Vec<u32>)
        ensures
            r@ == self.words(),
    ;

    /// The value that is those words.
    fn from_words(words: &[u32]) -> (r: Self)
        requires
            words@.len() == Self::size(),
        ensures
            r.words() == words@,
    ;
}

impl Words for () {
    open spec fn size() -> nat {
        0
    }

    open spec fn words(self) -> Seq<u32> {
        Seq::empty()
    }

    proof fn lemma_size(self) {
    }

    fn count() -> (r: usize) {
        0
    }

    fn to_words(self) -> (r: Vec<u32>) {
        Vec::new()
    }

    fn from_words(words: &[u32]) -> (r: Self) {
        assert(words@ =~= Seq::<u32>::empty());
    }
}

impl Words for u32 {
    open spec fn size() -> nat {
        1
    }

    open spec fn words(self) -> Seq<u32> {
        seq![self]
    }

    proof fn lemma_size(self) {
    }

    fn count() -> (r: usize) {
        1
    }

    fn to_words(self) -> (r: Vec<u32>) {
        vec![self]
    }

    fn from_words(words: &[u32]) -> (r: Self) {
        assert(seq![words@[0]] =~= words@);
        words[0]
    }
}

/// The array that holds the words of a slice as long as it.
fn array_of<const N: usize>(words: &[u32]) -> (r: [u32; N])
    requires
        words@.len() == N,
    ensures
        r@ == words@,
{
    let mut out: [u32; N] = [0u32; N];
    let mut i: usize = 0;
    while i < N
        invariant
            i <= N,
            words@.len() == N,
            forall|k: int| 0 <= k < i ==> out@[k] == words@[k],
        decreases N - i,
    {
        out[i] = words[i];
        i += 1;
    }
    assert(out@ =~= words@);
    out
}

impl<const N: usize> Words for [u32; N] {
    open spec fn size() -> nat {
        N as nat
    }

    open spec fn words(self) -> Seq<u32> {
        self@
    }

    proof fn lemma_size(self) {
    }

    fn count() -> (r: usize) {
        N
    }

    fn to_words(self) -> (r: Vec<u32>) {
        let mut out: Vec<u32> = Vec::new();
        let mut i: usize = 0;
        while i < N
            invariant
                i <= N,
                out@ == self@.subrange(0, i as int),
            decreases N - i,
        {
            out.push(self[i]);
            i += 1;
            assert(out@ =~= self@.subrange(0, i as int));
        }
        assert(self@.subrange(0, N as int) =~= self@);
        out
    }

    fn from_words(words: &[u32]) -> (r: Self) {
        array_of(words)
    }
}

/// A firmware property tag.
pub trait Tag {
    const ID: u32;

    type Request: Words;

    type Response: Words;
}

/// An address in the GPU's view of memory, as the firmware hands out (e.g. a framebuffer).
/// It has to be converted before the ARM cores can use it.
#[derive(Clone, Copy, Debug, PartialEq, Eq, Structural)]
pub struct BusAddress(pub u32);

impl BusAddress {
    /// The same memory as seen from the ARM cores: the bus address without its cache alias
    /// bits (the top two).
    #[verifier::allow_in_spec]
    pub fn to_arm(self) -> usize
        returns
            (self.0 % 0x4000_0000) as usize,
    {
        (self.0 % 0x4000_0000) as usize
    }

    /// Memory at ARM address `addr` as a DMA engine (like the USB controller's) must be given
    /// it: through the alias that bypasses the GPU's L2 cache, since the ARM cores don't see
    /// that cache. The ARM cores' own caches are the caller's business.
    #[verifier::allow_in_spec]
    pub fn from_arm(addr: usize) -> Self
        returns
            BusAddress((addr % 0x4000_0000 + 0xC000_0000) as u32),
    {
        BusAddress((addr % 0x4000_0000) as u32 + 0xC000_0000)
    }
}

/// A bus address made from an ARM address leads back to it.
pub proof fn arm_addresses_come_back(addr: usize)
    requires
        addr < 0x4000_0000,
    ensures
        BusAddress::from_arm(addr).to_arm() == addr,
{
}

#[derive(Clone, Copy, Debug, PartialEq, Eq, Structural)]
pub enum MailboxError {
    /// The firmware rejected the whole message.
    Firmware,
    /// The firmware left this tag unanswered, usually because it doesn't know it.
    Unanswered { tag: u32 },
    /// The response needed more room than the tag's types allow for.
    Truncated { tag: u32, needed: usize, capacity: usize },
    /// The response was shorter than the tag's response type.
    ShortResponse { tag: u32, len: usize, expected: usize },
    /// Too many tags for one message.
    BatchFull,
    /// The handle came from a different batch.
    WrongBatch { tag: u32 },
}

/// A tag as it is shown.
pub open spec fn shown_tag(tag: u32) -> Seq<char> {
    "tag 0x"@ + text::hexadecimal(tag as nat)
}

impl MailboxError {
    /// How it is shown.
    pub open spec fn shown(self) -> Seq<char> {
        match self {
            MailboxError::Firmware => "firmware rejected the message"@,
            MailboxError::Unanswered { tag } => shown_tag(tag) + " not answered"@,
            MailboxError::Truncated { tag, needed, capacity } => shown_tag(tag)
                + " response needs "@ + text::decimal(needed as nat) + " bytes, room for "@
                + text::decimal(capacity as nat),
            MailboxError::ShortResponse { tag, len, expected } => shown_tag(tag) + " response is "@
                + text::decimal(len as nat) + " bytes, expected "@ + text::decimal(expected as nat),
            MailboxError::BatchFull => "too many tags for one message"@,
            MailboxError::WrongBatch { tag } => shown_tag(tag) + " handle is from another batch"@,
        }
    }

    /// How it is shown.
    pub fn to_string(&self) -> (r: String)
        ensures
            r@ == self.shown(),
    {
        match *self {
            MailboxError::Firmware => "firmware rejected the message".to_owned(),
            MailboxError::Unanswered { tag } => {
                let mut out = show_tag(tag);
                out.append(" not answered");
                out
            },
            MailboxError::Truncated { tag, needed, capacity } => {
                let mut out = show_tag(tag);
                out.append(" response needs ");
                push_decimal(&mut out, needed as u64);
                out.append(" bytes, room for ");
                push_decimal(&mut out, capacity as u64);
                out
            },
            MailboxError::ShortResponse { tag, len, expected } => {
                let mut out = show_tag(tag);
                out.append(" response is ");
                push_decimal(&mut out, len as u64);
                out.append(" bytes, expected ");
                push_decimal(&mut out, expected as u64);
                out
            },
            MailboxError::BatchFull => "too many tags for one message".to_owned(),
            MailboxError::WrongBatch { tag } => {
                let mut out = show_tag(tag);
                out.append(" handle is from another batch");
                out
            },
        }
    }
}

fn show_tag(tag: u32) -> (r: String)
    ensures
        r@ == shown_tag(tag),
{
    let mut out = "tag 0x".to_owned();
    push_hex(&mut out, tag);
    out
}

/// Refers to one tag in a `Batch`, and reads its response from the `Replies`.
pub struct Handle<T: Tag> {
    /// Word index of the tag's header, or `None` if it didn't fit.
    offset: Option<usize>,
    tag: PhantomData<T>,
}

impl<T: Tag> Clone for Handle<T> {
    fn clone(&self) -> (r: Self)
        ensures
            r == *self,
    {
        Handle { offset: self.offset, tag: PhantomData }
    }
}

impl<T: Tag> Copy for Handle<T> {

}

/// Words in the value buffer of a tag: it fits the larger of request and response.
pub open spec fn value_words<T: Tag>() -> nat {
    if <T::Request as Words>::size() > <T::Response as Words>::size() {
        <T::Request as Words>::size()
    } else {
        <T::Response as Words>::size()
    }
}

impl<T: Tag> Handle<T> {
    /// Where the tag's header is, if it fit.
    pub closed spec fn place(self) -> Option<int> {
        match self.offset {
            Some(offset) => Some(offset as int),
            None => None,
        }
    }

    /// The tag it refers to is within the message.
    pub open spec fn wf(self) -> bool {
        self.place() matches Some(place) ==> 2 <= place && place + TAG_HEADER_WORDS + value_words::<
            T,
        >() < MESSAGE_WORDS
    }
}

/// `n` zero words.
pub open spec fn zero_words(n: nat) -> Seq<u32> {
    Seq::new(n, |i: int| 0u32)
}

/// A tag as it stands in a message: its header, and its request in a value buffer of `n` words.
pub open spec fn tag_words(id: u32, request: Seq<u32>, n: nat) -> Seq<u32> {
    seq![id, (n * 4) as u32, REQUEST] + request + zero_words((n - request.len()) as nat)
}

/// A whole message: its size, that it is a request, the tags, the end tag, and nothing more.
pub open spec fn message_words(tags: Seq<u32>) -> Seq<u32> {
    seq![((tags.len() + 3) * 4) as u32, REQUEST] + tags + seq![END_TAG] + zero_words(
        (MESSAGE_WORDS - tags.len() - 3) as nat,
    )
}

/// Several tags sent to the firmware in one message. Some settings only take effect together,
/// like the framebuffer's size, depth and allocation.
pub struct Batch {
    /// The tags so far.
    tags: Vec<u32>,
    full: bool,
}

impl Default for Batch {
    fn default() -> (r: Self)
        ensures
            r.wf(),
            r.tags() == Seq::<u32>::empty(),
            !r.is_full(),
    {
        Self::new()
    }
}

impl Batch {
    /// The words of the tags so far.
    pub closed spec fn tags(&self) -> Seq<u32> {
        self.tags@
    }

    /// Whether a tag didn't fit.
    pub closed spec fn is_full(&self) -> bool {
        self.full
    }

    /// The tags fit a message.
    pub open spec fn wf(&self) -> bool {
        self.tags().len() + 3 <= MESSAGE_WORDS
    }

    pub fn new() -> (r: Self)
        ensures
            r.wf(),
            r.tags() == Seq::<u32>::empty(),
            !r.is_full(),
    {
        Batch { tags: Vec::new(), full: false }
    }

    /// Adds a tag. If the message is full, `send` fails with `BatchFull`.
    pub fn add<T: Tag>(&mut self, request: T::Request) -> (r: Handle<T>)
        requires
            old(self).wf(),
        ensures
            final(self).wf(),
            r.wf(),
            ({
                let n = value_words::<T>();
                let fits = 2 + old(self).tags().len() + TAG_HEADER_WORDS + n + 1 <= MESSAGE_WORDS;
                &&& final(self).is_full() == (old(self).is_full() || !fits)
                &&& fits ==> final(self).tags() == old(self).tags() + tag_words(
                    T::ID,
                    request.words(),
                    n,
                )
                &&& fits ==> r.place() == Some(2 + old(self).tags().len() as int)
                &&& !fits ==> final(self).tags() == old(self).tags()
                &&& !fits ==> r.place() is None
            }),
    {
        let in_request = <T::Request as Words>::count();
        let in_response = <T::Response as Words>::count();
        let n: usize = if in_request > in_response {
            in_request
        } else {
            in_response
        };
        let offset: usize = self.tags.len() + 2;
        // Leave room for the end tag.
        if offset + TAG_HEADER_WORDS + 1 > MESSAGE_WORDS || n > MESSAGE_WORDS - offset
            - TAG_HEADER_WORDS - 1 {
            self.full = true;
            return Handle { offset: None, tag: PhantomData };
        }
        proof {
            request.lemma_size();
        }
        let ghost before = self.tags@;
        self.tags.push(T::ID);
        self.tags.push((n * 4) as u32);
        self.tags.push(REQUEST);
        let words = request.to_words();
        let mut i: usize = 0;
        while i < n
            invariant
                i <= n,
                words@.len() <= n,
                self.full == old(self).full,
                self.tags@ == before + seq![T::ID, (n * 4) as u32, REQUEST] + value_start(
                    words@,
                    i as int,
                ),
            decreases n - i,
        {
            let word: u32 = if i < words.len() {
                words[i]
            } else {
                0
            };
            self.tags.push(word);
            i += 1;
            assert(self.tags@ =~= before + seq![T::ID, (n * 4) as u32, REQUEST] + value_start(
                words@,
                i as int,
            ));
        }
        assert(value_start(words@, n as int) =~= words@ + zero_words((n - words@.len()) as nat));
        assert(self.tags@ =~= before + tag_words(T::ID, words@, n as nat));
        Handle { offset: Some(offset), tag: PhantomData }
    }

    /// What the firmware makes of the message, whatever it is: `BatchFull` if a tag didn't
    /// fit, and then nothing is sent; else the message is, and the answer is opened.
    pub fn send<X: Transport>(self, transport: &X) -> (r: Result<Replies, MailboxError>)
        requires
            self.wf(),
        ensures
            self.is_full() ==> r == Err::<Replies, MailboxError>(MailboxError::BatchFull),
            !self.is_full() ==> exists|reply: Seq<u32>| #[trigger]
                transport.answers(message_words(self.tags()), reply) && reply.len()
                    == MESSAGE_WORDS && opened(reply, self.tags().len() + 2, r),
    {
        if self.full {
            return Err(MailboxError::BatchFull);
        }
        let len: usize = self.tags.len() + 2;
        let mut words: Vec<u32> = Vec::new();
        words.push(((len + 1) * 4) as u32);
        words.push(REQUEST);
        let mut i: usize = 0;
        while i < self.tags.len()
            invariant
                i <= self.tags@.len(),
                words@ == seq![((self.tags@.len() + 3) * 4) as u32, REQUEST] + self.tags@.subrange(
                    0,
                    i as int,
                ),
            decreases self.tags@.len() - i,
        {
            words.push(self.tags[i]);
            i += 1;
            assert(words@ =~= seq![((self.tags@.len() + 3) * 4) as u32, REQUEST]
                + self.tags@.subrange(0, i as int));
        }
        assert(self.tags@.subrange(0, i as int) =~= self.tags@);
        words.push(END_TAG);
        let ghost start = words@;
        words.resize(MESSAGE_WORDS, 0);
        assert(words@ =~= start + zero_words((MESSAGE_WORDS - start.len()) as nat));
        assert(words@ =~= message_words(self.tags@));
        let mut msg = Message { words };
        transport.call(&mut msg);
        open(msg, len)
    }
}

/// The first `n` words of a value buffer that starts with `words` and is otherwise zero.
spec fn value_start(words: Seq<u32>, n: int) -> Seq<u32> {
    Seq::new(
        n as nat,
        |i: int|
            if i < words.len() {
                words[i]
            } else {
                0
            },
    )
}

/// Whether `r` is what comes of opening the answer `reply` to a message of `len` words.
pub open spec fn opened(reply: Seq<u32>, len: nat, r: Result<Replies, MailboxError>) -> bool {
    match r {
        Ok(replies) => reply[1] == RESPONSE_OK && replies.words() == reply && replies.len() == len
            && replies.wf(),
        Err(error) => reply[1] != RESPONSE_OK && error == MailboxError::Firmware,
    }
}

/// Opens the firmware's answer to a message of `len` words: it may have rejected it.
fn open(msg: Message, len: usize) -> (r: Result<Replies, MailboxError>)
    requires
        msg.wf(),
        2 <= len < MESSAGE_WORDS,
    ensures
        opened(msg@, len as nat, r),
{
    if msg.words[1] != RESPONSE_OK {
        return Err(MailboxError::Firmware);
    }
    Ok(Replies { msg, len })
}

/// The firmware's answers to a sent `Batch`.
pub struct Replies {
    msg: Message,
    len: usize,
}

/// What stands for the tag `id` at word `place` in a message of `len` words, if its response
/// is `expected` words: where the response is, or what is wrong with it.
pub open spec fn response_at(
    words: Seq<u32>,
    len: nat,
    id: u32,
    place: Option<int>,
    expected: nat,
) -> Result<Seq<u32>, MailboxError> {
    match place {
        None => Err(MailboxError::WrongBatch { tag: id }),
        Some(at) => if at + TAG_HEADER_WORDS > len || words[at] != id {
            Err(MailboxError::WrongBatch { tag: id })
        } else if words[at + 2] < TAG_RESPONSE {
            Err(MailboxError::Unanswered { tag: id })
        } else {
            let answered = (words[at + 2] - TAG_RESPONSE) as usize;
            let capacity = words[at + 1] as usize;
            if answered > capacity {
                Err(MailboxError::Truncated { tag: id, needed: answered, capacity })
            } else if answered < expected * 4 {
                Err(
                    MailboxError::ShortResponse {
                        tag: id,
                        len: answered,
                        expected: (expected * 4) as usize,
                    },
                )
            } else {
                Ok(words.subrange(at + 3, at + 3 + expected))
            }
        },
    }
}

impl Replies {
    /// The answered message.
    pub closed spec fn words(&self) -> Seq<u32> {
        self.msg@
    }

    /// How many words of it the tags took, with the message's header.
    pub closed spec fn len(&self) -> nat {
        self.len as nat
    }

    pub open spec fn wf(&self) -> bool {
        self.words().len() == MESSAGE_WORDS && 2 <= self.len() < MESSAGE_WORDS
    }

    pub fn get<T: Tag>(&self, handle: Handle<T>) -> (r: Result<T::Response, MailboxError>)
        requires
            self.wf(),
            handle.wf(),
        ensures
            match r {
                Ok(response) => response_at(
                    self.words(),
                    self.len(),
                    T::ID,
                    handle.place(),
                    <T::Response as Words>::size(),
                ) == Ok::<Seq<u32>, MailboxError>(response.words()),
                Err(error) => response_at(
                    self.words(),
                    self.len(),
                    T::ID,
                    handle.place(),
                    <T::Response as Words>::size(),
                ) == Err::<Seq<u32>, MailboxError>(error),
            },
    {
        let buf = &self.msg.words;
        let offset = match handle.offset {
            Some(offset) => offset,
            None => {
                return Err(MailboxError::WrongBatch { tag: T::ID });
            },
        };
        if offset + TAG_HEADER_WORDS > self.len || buf[offset] != T::ID {
            return Err(MailboxError::WrongBatch { tag: T::ID });
        }
        let code = buf[offset + 2];
        if code < TAG_RESPONSE {
            return Err(MailboxError::Unanswered { tag: T::ID });
        }
        let len = (code - TAG_RESPONSE) as usize;
        let capacity = buf[offset + 1] as usize;
        let count = <T::Response as Words>::count();
        let expected: usize = count * 4;
        if len > capacity {
            return Err(MailboxError::Truncated { tag: T::ID, needed: len, capacity });
        }
        if len < expected {
            return Err(MailboxError::ShortResponse { tag: T::ID, len, expected });
        }
        let start: usize = offset + TAG_HEADER_WORDS;
        Ok(<T::Response as Words>::from_words(vstd::slice::slice_subrange(buf.as_slice(), start, start + count)))
    }
}

/// Whether `r` is what comes of sending a single tag of type `T` with `request` through
/// `transport`: a tag that is too long for a message is not sent, and else the response is
/// read from what the firmware answered.
pub open spec fn queried<T: Tag, X: Transport>(
    transport: &X,
    request: T::Request,
    r: Result<T::Response, MailboxError>,
) -> bool {
    let n = value_words::<T>();
    if 2 + TAG_HEADER_WORDS + n + 1 > MESSAGE_WORDS {
        r == Err::<T::Response, MailboxError>(MailboxError::BatchFull)
    } else {
        let tags = tag_words(T::ID, request.words(), n);
        exists|reply: Seq<u32>| #[trigger]
            transport.answers(message_words(tags), reply) && reply.len() == MESSAGE_WORDS && (
            if reply[1] != RESPONSE_OK {
                r == Err::<T::Response, MailboxError>(MailboxError::Firmware)
            } else {
                match r {
                    Ok(response) => response_at(
                        reply,
                        tags.len() + 2,
                        T::ID,
                        Some(2),
                        <T::Response as Words>::size(),
                    ) == Ok::<Seq<u32>, MailboxError>(response.words()),
                    Err(error) => response_at(
                        reply,
                        tags.len() + 2,
                        T::ID,
                        Some(2),
                        <T::Response as Words>::size(),
                    ) == Err::<Seq<u32>, MailboxError>(error),
                }
            })
    }
}

/// Sends a single tag and returns its response.
pub fn query<T: Tag, X: Transport>(transport: &X, request: T::Request) -> (r: Result<
    T::Response,
    MailboxError,
>)
    ensures
        queried::<T, X>(transport, request, r),
{
    let mut batch = Batch::new();
    let handle = batch.add::<T>(request);
    let ghost tags = batch.tags();
    proof {
        let n = value_words::<T>();
        assert(Seq::<u32>::empty() + tag_words(T::ID, request.words(), n) =~= tag_words(
            T::ID,
            request.words(),
            n,
        ));
    }
    match batch.send(transport) {
        Ok(replies) => replies.get(handle),
        Err(error) => Err(error),
    }
}

/// A message with one tag, word by word: its size in bytes, 0 for a request, the tag's number,
/// the size in bytes of its value buffer, 0 again, the request in that buffer, and zeros.
pub proof fn messages_are_laid_out(id: u32, request: Seq<u32>, n: nat)
    requires
        request.len() <= n,
        n <= 250,
    ensures
        message_words(tag_words(id, request, n)) == seq![
            (4 * (n + 6)) as u32,
            0,
            id,
            (4 * n) as u32,
            0,
        ] + request + Seq::new((251 - request.len()) as nat, |i: int| 0u32),
{
    assert(message_words(tag_words(id, request, n)) =~= seq![
        (4 * (n + 6)) as u32,
        0,
        id,
        (4 * n) as u32,
        0,
    ] + request + Seq::new((251 - request.len()) as nat, |i: int| 0u32));
}

/// An answered tag gives the words that the firmware put in its value buffer, if bit 31 of its
/// code is set and the length in the other bits neither exceeds the buffer nor falls short of
/// what is expected; else what is wrong. A tag of another number is another batch's.
pub proof fn answers_are_read(
    before: Seq<u32>,
    tag: u32,
    capacity: u32,
    code: u32,
    values: Seq<u32>,
    after: Seq<u32>,
    len: nat,
    id: u32,
    expected: nat,
)
    requires
        expected <= values.len(),
        4 * expected <= u32::MAX,
        before.len() + 3 + values.len() <= len,
    ensures
        ({
            let words = before + seq![tag, capacity, code] + values + after;
            let read = response_at(words, len, id, Some(before.len() as int), expected);
            read == (if tag != id {
                Err(MailboxError::WrongBatch { tag: id })
            } else if code < 0x8000_0000 {
                Err(MailboxError::Unanswered { tag: id })
            } else if code - 0x8000_0000 > capacity {
                Err(
                    MailboxError::Truncated {
                        tag: id,
                        needed: (code - 0x8000_0000) as usize,
                        capacity: capacity as usize,
                    },
                )
            } else if code - 0x8000_0000 < 4 * expected {
                Err(
                    MailboxError::ShortResponse {
                        tag: id,
                        len: (code - 0x8000_0000) as usize,
                        expected: (4 * expected) as usize,
                    },
                )
            } else {
                Ok(values.subrange(0, expected as int))
            })
        }),
{
    let words = before + seq![tag, capacity, code] + values + after;
    let at = before.len() as int;
    assert(words[at] == tag && words[at + 1] == capacity && words[at + 2] == code);
    assert(words.subrange(at + 3, at + 3 + expected) =~= values.subrange(0, expected as int));
}

} // verus!
