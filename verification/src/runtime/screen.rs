//! Drawing on the screen. Opening it takes it from the kernel console, which comes back when
//! the screen is closed or the program exits.

use crate::abi::Errno;
use vstd::prelude::*;

verus! {

/// A colour as programs draw it: `0x00RRGGBB`.
pub fn rgb(r: u8, g: u8, b: u8) -> (color: u32)
    ensures
        color == r * 0x1_0000 + g * 0x100 + b,
{
    r as u32 * 0x1_0000 + g as u32 * 0x100 + b as u32
}

/// The size of the screen in pixels, as the kernel writes it.
#[derive(Clone, Copy, Debug, PartialEq, Eq, Structural)]
pub struct ScreenSize {
    pub width: u32,
    pub height: u32,
}

/// The screen, while this program has it.
#[derive(Debug, PartialEq, Eq, Structural)]
pub struct Screen {
    pub handle: u64,
    pub size: ScreenSize,
}

/// A rectangle for the kernel to draw, with its top left corner at (`x`, `y`).
#[derive(Clone, Copy, Debug, PartialEq, Eq, Structural)]
pub struct Draw {
    pub handle: u64,
    pub x: u64,
    pub y: u64,
    pub width: u64,
    pub height: u64,
}

/// The screen, from the handle that asking for it came back with and its size. `Busy` if
/// another program has it, `NoDevice` without a display.
pub fn open(result: Result<u64, Errno>, size: ScreenSize) -> (r: Result<Screen, Errno>)
    ensures
        r == match result {
            Ok(handle) => Ok::<Screen, Errno>(Screen { handle, size }),
            Err(error) => Err(error),
        },
{
    match result {
        Ok(handle) => Ok(Screen { handle, size }),
        Err(error) => Err(error),
    }
}

impl Screen {
    pub fn width(&self) -> (r: usize)
        ensures
            r == self.size.width,
    {
        self.size.width as usize
    }

    pub fn height(&self) -> (r: usize)
        ensures
            r == self.size.height,
    {
        self.size.height as usize
    }

    /// What to draw for `width` by `pixels.len() / width` pixels, row by row, with the top left
    /// corner at (`x`, `y`): nothing if they are no pixels wide. Whatever falls off the screen
    /// is left out by the kernel.
    pub fn draw(&self, x: usize, y: usize, width: usize, pixels: &[u32]) -> (r: Option<Draw>)
        ensures
            width == 0 ==> r is None,
            width > 0 ==> r == Some(
                Draw {
                    handle: self.handle,
                    x: x as u64,
                    y: y as u64,
                    width: width as u64,
                    height: (pixels@.len() as int / width as int) as u64,
                },
            ),
    {
        if width == 0 {
            return None;
        }
        Some(
            Draw {
                handle: self.handle,
                x: x as u64,
                y: y as u64,
                width: width as u64,
                height: (pixels.len() / width) as u64,
            },
        )
    }

    /// What to draw to fill a rectangle with one colour: a row of pixels, and where it goes.
    pub fn fill(&self, x: usize, y: usize, width: usize, height: usize, color: u32) -> (r: (
        Vec<u32>,
        Vec<Draw>,
    ))
        requires
            y + height <= usize::MAX,
        ensures
            r.0@ == Seq::new(width as nat, |i: int| color),
            r.1@ == (if width == 0 {
                Seq::<Draw>::empty()
            } else {
                Seq::new(
                    height as nat,
                    |i: int|
                        Draw {
                            handle: self.handle,
                            x: x as u64,
                            y: (y + i) as u64,
                            width: width as u64,
                            height: 1,
                        },
                )
            }),
    {
        let row: Vec<u32> = vec![color; width];
        assert(row@ =~= Seq::new(width as nat, |i: int| color));
        let mut draws: Vec<Draw> = Vec::new();
        let mut row_y: usize = y;
        while row_y < y + height
            invariant
                y <= row_y <= y + height <= usize::MAX,
                row@.len() == width,
                draws@ == (if width == 0 {
                    Seq::<Draw>::empty()
                } else {
                    Seq::new(
                        (row_y - y) as nat,
                        |i: int|
                            Draw {
                                handle: self.handle,
                                x: x as u64,
                                y: (y + i) as u64,
                                width: width as u64,
                                height: 1,
                            },
                    )
                }),
            decreases y + height - row_y,
        {
            if let Some(draw) = self.draw(x, row_y, width, &row) {
                proof {
                    vstd::arithmetic::div_mod::lemma_div_by_self(width as int);
                }
                draws.push(draw);
            }
            row_y += 1;
            assert(width > 0 ==> draws@ =~= Seq::new(
                (row_y - y) as nat,
                |i: int|
                    Draw {
                        handle: self.handle,
                        x: x as u64,
                        y: (y + i) as u64,
                        width: width as u64,
                        height: 1,
                    },
            ));
        }
        (row, draws)
    }

    /// What to draw to fill the whole screen with one colour.
    pub fn clear(&self, color: u32) -> (r: (Vec<u32>, Vec<Draw>))
        ensures
            r.0@ == Seq::new(self.size.width as nat, |i: int| color),
            r.1@ == (if self.size.width == 0 {
                Seq::<Draw>::empty()
            } else {
                Seq::new(
                    self.size.height as nat,
                    |i: int|
                        Draw {
                            handle: self.handle,
                            x: 0,
                            y: i as u64,
                            width: self.size.width as u64,
                            height: 1,
                        },
                )
            }),
    {
        let r = self.fill(0, 0, self.width(), self.height(), color);
        assert(self.size.width > 0 ==> r.1@ =~= Seq::new(
            self.size.height as nat,
            |i: int|
                Draw {
                    handle: self.handle,
                    x: 0,
                    y: i as u64,
                    width: self.size.width as u64,
                    height: 1,
                },
        ));
        r
    }
}

} // verus!
