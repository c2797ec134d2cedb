//! Firmware property tags, from
//! <https://github.com/raspberrypi/firmware/wiki/Mailbox-property-interface>.

use super::{BusAddress, Tag, Words};
use vstd::prelude::*;

verus! {

impl Words for BusAddress {
    open spec fn size() -> nat {
        1
    }

    open spec fn words(self) -> Seq<u32> {
        seq![self.0]
    }

    proof fn lemma_size(self) {
    }

    fn count() -> (r: usize) {
        1
    }

    fn to_words(self) -> (r: Vec<u32>) {
        vec![self.0]
    }

    fn from_words(words: &[u32]) -> (r: Self) {
        let r = BusAddress(words[0]);
        assert(r.words() =~= words@);
        r
    }
}

pub struct GetFirmwareRevision;

impl Tag for GetFirmwareRevision {
    const ID: u32 = 0x0000_0001;

    type Request = ();

    type Response = u32;
}

pub struct GetBoardRevision;

impl Tag for GetBoardRevision {
    const ID: u32 = 0x0001_0002;

    type Request = ();

    type Response = u32;
}

/// A range of memory, in bytes.
#[derive(Clone, Copy, Debug, PartialEq, Eq, Structural)]
pub struct MemoryRegion {
    pub base: u32,
    pub size: u32,
}

impl Words for MemoryRegion {
    open spec fn size() -> nat {
        2
    }

    open spec fn words(self) -> Seq<u32> {
        seq![self.base, self.size]
    }

    proof fn lemma_size(self) {
    }

    fn count() -> (r: usize) {
        2
    }

    fn to_words(self) -> (r: Vec<u32>) {
        vec![self.base, self.size]
    }

    fn from_words(words: &[u32]) -> (r: Self) {
        let r = MemoryRegion { base: words[0], size: words[1] };
        assert(r.words() =~= words@);
        r
    }
}

/// The memory the firmware leaves to the ARM cores; the rest belongs to the GPU.
pub struct GetArmMemory;

impl Tag for GetArmMemory {
    const ID: u32 = 0x0001_0005;

    type Request = ();

    type Response = MemoryRegion;
}

#[derive(Clone, Copy, Debug, PartialEq, Eq, Structural)]
pub struct SensorId(pub u32);

impl Words for SensorId {
    open spec fn size() -> nat {
        1
    }

    open spec fn words(self) -> Seq<u32> {
        seq![self.0]
    }

    proof fn lemma_size(self) {
    }

    fn count() -> (r: usize) {
        1
    }

    fn to_words(self) -> (r: Vec<u32>) {
        vec![self.0]
    }

    fn from_words(words: &[u32]) -> (r: Self) {
        let r = SensorId(words[0]);
        assert(r.words() =~= words@);
        r
    }
}

impl SensorId {
    #[verifier::allow_in_spec]
    pub fn soc() -> SensorId
        returns
            SensorId(0),
    {
        SensorId(0)
    }
}

#[derive(Clone, Copy, Debug, PartialEq, Eq, Structural)]
pub struct Temperature {
    pub id: SensorId,
    pub millidegrees: u32,
}

impl Words for Temperature {
    open spec fn size() -> nat {
        2
    }

    open spec fn words(self) -> Seq<u32> {
        seq![self.id.0, self.millidegrees]
    }

    proof fn lemma_size(self) {
    }

    fn count() -> (r: usize) {
        2
    }

    fn to_words(self) -> (r: Vec<u32>) {
        vec![self.id.0, self.millidegrees]
    }

    fn from_words(words: &[u32]) -> (r: Self) {
        let r = Temperature { id: SensorId(words[0]), millidegrees: words[1] };
        assert(r.words() =~= words@);
        r
    }
}

pub struct GetTemperature;

impl Tag for GetTemperature {
    const ID: u32 = 0x0003_0006;

    type Request = SensorId;

    type Response = Temperature;
}

/// A clock in the SoC.
#[derive(Clone, Copy, Debug, PartialEq, Eq, Structural)]
pub struct ClockId(pub u32);

impl Words for ClockId {
    open spec fn size() -> nat {
        1
    }

    open spec fn words(self) -> Seq<u32> {
        seq![self.0]
    }

    proof fn lemma_size(self) {
    }

    fn count() -> (r: usize) {
        1
    }

    fn to_words(self) -> (r: Vec<u32>) {
        vec![self.0]
    }

    fn from_words(words: &[u32]) -> (r: Self) {
        let r = ClockId(words[0]);
        assert(r.words() =~= words@);
        r
    }
}

impl ClockId {
    /// The EMMC controller's base clock, which the SD card clock is divided from.
    #[verifier::allow_in_spec]
    pub fn emmc() -> ClockId
        returns
            ClockId(1),
    {
        ClockId(1)
    }
}

#[derive(Clone, Copy, Debug, PartialEq, Eq, Structural)]
pub struct ClockRate {
    pub id: ClockId,
    pub hz: u32,
}

impl Words for ClockRate {
    open spec fn size() -> nat {
        2
    }

    open spec fn words(self) -> Seq<u32> {
        seq![self.id.0, self.hz]
    }

    proof fn lemma_size(self) {
    }

    fn count() -> (r: usize) {
        2
    }

    fn to_words(self) -> (r: Vec<u32>) {
        vec![self.id.0, self.hz]
    }

    fn from_words(words: &[u32]) -> (r: Self) {
        let r = ClockRate { id: ClockId(words[0]), hz: words[1] };
        assert(r.words() =~= words@);
        r
    }
}

pub struct GetClockRate;

impl Tag for GetClockRate {
    const ID: u32 = 0x0003_0002;

    type Request = ClockId;

    type Response = ClockRate;
}

/// A device whose power the firmware switches.
#[derive(Clone, Copy, Debug, PartialEq, Eq, Structural)]
pub struct DeviceId(pub u32);

impl Words for DeviceId {
    open spec fn size() -> nat {
        1
    }

    open spec fn words(self) -> Seq<u32> {
        seq![self.0]
    }

    proof fn lemma_size(self) {
    }

    fn count() -> (r: usize) {
        1
    }

    fn to_words(self) -> (r: Vec<u32>) {
        vec![self.0]
    }

    fn from_words(words: &[u32]) -> (r: Self) {
        let r = DeviceId(words[0]);
        assert(r.words() =~= words@);
        r
    }
}

impl DeviceId {
    /// The USB host controller.
    #[verifier::allow_in_spec]
    pub fn usb_hcd() -> DeviceId
        returns
            DeviceId(3),
    {
        DeviceId(3)
    }
}

/// A device's power state: bit 0 is whether it is on. In a request, bit 1 asks to wait until it
/// is; in a response, it says that there is no such device.
#[derive(Clone, Copy, Debug, PartialEq, Eq, Structural)]
pub struct PowerState {
    pub device: DeviceId,
    pub state: u32,
}

impl Words for PowerState {
    open spec fn size() -> nat {
        2
    }

    open spec fn words(self) -> Seq<u32> {
        seq![self.device.0, self.state]
    }

    proof fn lemma_size(self) {
    }

    fn count() -> (r: usize) {
        2
    }

    fn to_words(self) -> (r: Vec<u32>) {
        vec![self.device.0, self.state]
    }

    fn from_words(words: &[u32]) -> (r: Self) {
        let r = PowerState { device: DeviceId(words[0]), state: words[1] };
        assert(r.words() =~= words@);
        r
    }
}

impl PowerState {
    /// A request to switch `device` on, and to wait until it is.
    #[verifier::allow_in_spec]
    pub fn on(device: DeviceId) -> PowerState
        returns
            (PowerState { device, state: 0b11 }),
    {
        PowerState { device, state: 0b11 }
    }

    /// Whether the device is there, and on.
    pub fn is_on(&self) -> (r: bool)
        ensures
            r == (self.state % 4 == 1),
    {
        self.state % 4 == 1
    }
}

/// A MAC address: six bytes, little endian, in two words.
#[derive(Clone, Copy, Debug, PartialEq, Eq, Structural)]
pub struct MacAddress {
    pub low: u32,
    pub high: u32,
}

impl Words for MacAddress {
    open spec fn size() -> nat {
        2
    }

    open spec fn words(self) -> Seq<u32> {
        seq![self.low, self.high]
    }

    proof fn lemma_size(self) {
    }

    fn count() -> (r: usize) {
        2
    }

    fn to_words(self) -> (r: Vec<u32>) {
        vec![self.low, self.high]
    }

    fn from_words(words: &[u32]) -> (r: Self) {
        let r = MacAddress { low: words[0], high: words[1] };
        assert(r.words() =~= words@);
        r
    }
}

// Framebuffer. The set tags respond with what the firmware actually applied, which can
// differ from the request.
#[derive(Clone, Copy, Debug, PartialEq, Eq, Structural)]
pub struct Size {
    pub width: u32,
    pub height: u32,
}

impl Words for Size {
    open spec fn size() -> nat {
        2
    }

    open spec fn words(self) -> Seq<u32> {
        seq![self.width, self.height]
    }

    proof fn lemma_size(self) {
    }

    fn count() -> (r: usize) {
        2
    }

    fn to_words(self) -> (r: Vec<u32>) {
        vec![self.width, self.height]
    }

    fn from_words(words: &[u32]) -> (r: Self) {
        let r = Size { width: words[0], height: words[1] };
        assert(r.words() =~= words@);
        r
    }
}

#[derive(Clone, Copy, Debug, PartialEq, Eq, Structural)]
pub struct Offset {
    pub x: u32,
    pub y: u32,
}

impl Words for Offset {
    open spec fn size() -> nat {
        2
    }

    open spec fn words(self) -> Seq<u32> {
        seq![self.x, self.y]
    }

    proof fn lemma_size(self) {
    }

    fn count() -> (r: usize) {
        2
    }

    fn to_words(self) -> (r: Vec<u32>) {
        vec![self.x, self.y]
    }

    fn from_words(words: &[u32]) -> (r: Self) {
        let r = Offset { x: words[0], y: words[1] };
        assert(r.words() =~= words@);
        r
    }
}

/// Bits per pixel.
#[derive(Clone, Copy, Debug, PartialEq, Eq, Structural)]
pub struct Depth(pub u32);

impl Words for Depth {
    open spec fn size() -> nat {
        1
    }

    open spec fn words(self) -> Seq<u32> {
        seq![self.0]
    }

    proof fn lemma_size(self) {
    }

    fn count() -> (r: usize) {
        1
    }

    fn to_words(self) -> (r: Vec<u32>) {
        vec![self.0]
    }

    fn from_words(words: &[u32]) -> (r: Self) {
        let r = Depth(words[0]);
        assert(r.words() =~= words@);
        r
    }
}

/// Order of the colour channels within a pixel.
#[derive(Clone, Copy, Debug, PartialEq, Eq, Structural)]
pub struct PixelOrder(pub u32);

impl Words for PixelOrder {
    open spec fn size() -> nat {
        1
    }

    open spec fn words(self) -> Seq<u32> {
        seq![self.0]
    }

    proof fn lemma_size(self) {
    }

    fn count() -> (r: usize) {
        1
    }

    fn to_words(self) -> (r: Vec<u32>) {
        vec![self.0]
    }

    fn from_words(words: &[u32]) -> (r: Self) {
        let r = PixelOrder(words[0]);
        assert(r.words() =~= words@);
        r
    }
}

impl PixelOrder {
    #[verifier::allow_in_spec]
    pub fn bgr() -> PixelOrder
        returns
            PixelOrder(0),
    {
        PixelOrder(0)
    }
}

impl PixelOrder {
    #[verifier::allow_in_spec]
    pub fn rgb() -> PixelOrder
        returns
            PixelOrder(1),
    {
        PixelOrder(1)
    }
}

/// Byte alignment requested for the framebuffer.
#[derive(Clone, Copy, Debug, PartialEq, Eq, Structural)]
pub struct Alignment(pub u32);

impl Words for Alignment {
    open spec fn size() -> nat {
        1
    }

    open spec fn words(self) -> Seq<u32> {
        seq![self.0]
    }

    proof fn lemma_size(self) {
    }

    fn count() -> (r: usize) {
        1
    }

    fn to_words(self) -> (r: Vec<u32>) {
        vec![self.0]
    }

    fn from_words(words: &[u32]) -> (r: Self) {
        let r = Alignment(words[0]);
        assert(r.words() =~= words@);
        r
    }
}

#[derive(Clone, Copy, Debug, PartialEq, Eq, Structural)]
pub struct FramebufferAllocation {
    pub base: BusAddress,
    pub size: u32,
}

impl Words for FramebufferAllocation {
    open spec fn size() -> nat {
        2
    }

    open spec fn words(self) -> Seq<u32> {
        seq![self.base.0, self.size]
    }

    proof fn lemma_size(self) {
    }

    fn count() -> (r: usize) {
        2
    }

    fn to_words(self) -> (r: Vec<u32>) {
        vec![self.base.0, self.size]
    }

    fn from_words(words: &[u32]) -> (r: Self) {
        let r = FramebufferAllocation { base: BusAddress(words[0]), size: words[1] };
        assert(r.words() =~= words@);
        r
    }
}

/// The display's resolution, or the configured default when none is attached.
pub struct GetPhysicalSize;

impl Tag for GetPhysicalSize {
    const ID: u32 = 0x0004_0003;

    type Request = ();

    type Response = Size;
}

pub struct SetPhysicalSize;

impl Tag for SetPhysicalSize {
    const ID: u32 = 0x0004_8003;

    type Request = Size;

    type Response = Size;
}

/// Size of the drawable buffer, which can be larger than the display for panning.
pub struct SetVirtualSize;

impl Tag for SetVirtualSize {
    const ID: u32 = 0x0004_8004;

    type Request = Size;

    type Response = Size;
}

pub struct SetVirtualOffset;

impl Tag for SetVirtualOffset {
    const ID: u32 = 0x0004_8009;

    type Request = Offset;

    type Response = Offset;
}

pub struct SetDepth;

impl Tag for SetDepth {
    const ID: u32 = 0x0004_8005;

    type Request = Depth;

    type Response = Depth;
}

pub struct SetPixelOrder;

impl Tag for SetPixelOrder {
    const ID: u32 = 0x0004_8006;

    type Request = PixelOrder;

    type Response = PixelOrder;
}

/// Allocates the framebuffer with the settings from the same message.
pub struct AllocateBuffer;

impl Tag for AllocateBuffer {
    const ID: u32 = 0x0004_0001;

    type Request = Alignment;

    type Response = FramebufferAllocation;
}

/// Bytes per row of the allocated framebuffer.
pub struct GetPitch;

impl Tag for GetPitch {
    const ID: u32 = 0x0004_0008;

    type Request = ();

    type Response = u32;
}

/// The firmware's numbers for the tags.
pub proof fn tags_have_the_firmwares_numbers()
    ensures
        GetFirmwareRevision::ID == 0x1,
        GetBoardRevision::ID == 0x10002,
        GetArmMemory::ID == 0x10005,
        GetTemperature::ID == 0x30006,
        GetClockRate::ID == 0x30002,
        GetPhysicalSize::ID == 0x40003,
        SetPhysicalSize::ID == 0x48003,
        SetVirtualSize::ID == 0x48004,
        SetVirtualOffset::ID == 0x48009,
        SetDepth::ID == 0x48005,
        SetPixelOrder::ID == 0x48006,
        AllocateBuffer::ID == 0x40001,
        GetPitch::ID == 0x40008,
{
}

} // verus!
