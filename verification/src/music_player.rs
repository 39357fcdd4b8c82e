//! What a player shows and when it goes on: the colours of the keys of a
//! piano, where they are drawn, and the pace of a song.

use vstd::prelude::*;
use crate::keyboard_events_extractor::KeyData;
use crate::seq_search::last_index_where;
use crate::utils::{
    in_piano_range, is_strictly_increasing, Song, DO_1, DO_8, LA_0, LA_DIESE_0, SI_0,
};

verus! {

/// The colour in which a key is drawn.
#[derive(Clone, Copy, Debug, PartialEq, Eq)]
pub enum KeyColor {
    White,
    Black,
    /// A white key that is held down.
    Blue,
    /// A black key that is held down.
    Cyan,
}

/// The colours of the twelve keys of an octave.
#[derive(Clone, Copy, Debug, PartialEq, Eq)]
pub struct OctaveColor {
    pub do_color: KeyColor,
    pub re_color: KeyColor,
    pub mi_color: KeyColor,
    pub fa_color: KeyColor,
    pub sol_color: KeyColor,
    pub la_color: KeyColor,
    pub si_color: KeyColor,
    pub do_diese_color: KeyColor,
    pub re_diese_color: KeyColor,
    pub fa_diese_color: KeyColor,
    pub sol_diese_color: KeyColor,
    pub la_diese_color: KeyColor,
}

/// A black key: a pitch 1, 3, 6, 8 or 10 semitones above a C.
pub open spec fn is_black_key(pitch: u8) -> bool {
    pitch % 12 == 1 || pitch % 12 == 3 || pitch % 12 == 6 || pitch % 12 == 8 || pitch % 12 == 10
}

/// The colour of `pitch` where the white keys have colour `normal` and the
/// black keys colour `diese`.
pub open spec fn key_color(pitch: u8, normal: KeyColor, diese: KeyColor) -> KeyColor {
    if is_black_key(pitch) {
        diese
    } else {
        normal
    }
}

/// The colour of a key at rest.
pub open spec fn released_color(pitch: u8) -> KeyColor {
    key_color(pitch, KeyColor::White, KeyColor::Black)
}

/// The colour of a key held down.
pub open spec fn pressed_color(pitch: u8) -> KeyColor {
    key_color(pitch, KeyColor::Blue, KeyColor::Cyan)
}

impl OctaveColor {
    /// The colour of the key `key_pos` semitones above the C of the octave.
    pub open spec fn color_at(self, key_pos: int) -> KeyColor {
        if key_pos == 0 {
            self.do_color
        } else if key_pos == 1 {
            self.do_diese_color
        } else if key_pos == 2 {
            self.re_color
        } else if key_pos == 3 {
            self.re_diese_color
        } else if key_pos == 4 {
            self.mi_color
        } else if key_pos == 5 {
            self.fa_color
        } else if key_pos == 6 {
            self.fa_diese_color
        } else if key_pos == 7 {
            self.sol_color
        } else if key_pos == 8 {
            self.sol_diese_color
        } else if key_pos == 9 {
            self.la_color
        } else if key_pos == 10 {
            self.la_diese_color
        } else {
            self.si_color
        }
    }

    /// An octave at rest.
    pub fn new() -> (octave: Self)
        ensures
            forall|pitch: u8|
                #[trigger] octave.color_at((pitch % 12) as int) == released_color(pitch),
    {
        OctaveColor {
            do_color: KeyColor::White,
            do_diese_color: KeyColor::Black,
            re_color: KeyColor::White,
            re_diese_color: KeyColor::Black,
            mi_color: KeyColor::White,
            fa_color: KeyColor::White,
            fa_diese_color: KeyColor::Black,
            sol_color: KeyColor::White,
            sol_diese_color: KeyColor::Black,
            la_color: KeyColor::White,
            la_diese_color: KeyColor::Black,
            si_color: KeyColor::White,
        }
    }

    /// Gives the key `key_pos` semitones above the C of the octave the colour
    /// `normal_key_color` if it is white, `diese_key_color` if it is black.
    fn set_key(&mut self, key_pos: u8, normal_key_color: KeyColor, diese_key_color: KeyColor)
        requires
            key_pos < 12,
        ensures
            final(self).color_at(key_pos as int) == key_color(
                key_pos,
                normal_key_color,
                diese_key_color,
            ),
            forall|pos: int|
                0 <= pos < 12 && pos != key_pos ==> #[trigger] final(self).color_at(pos) == old(
                    self,
                ).color_at(pos),
    {
        if key_pos == 0 {
            self.do_color = normal_key_color;
        } else if key_pos == 1 {
            self.do_diese_color = diese_key_color;
        } else if key_pos == 2 {
            self.re_color = normal_key_color;
        } else if key_pos == 3 {
            self.re_diese_color = diese_key_color;
        } else if key_pos == 4 {
            self.mi_color = normal_key_color;
        } else if key_pos == 5 {
            self.fa_color = normal_key_color;
        } else if key_pos == 6 {
            self.fa_diese_color = diese_key_color;
        } else if key_pos == 7 {
            self.sol_color = normal_key_color;
        } else if key_pos == 8 {
            self.sol_diese_color = diese_key_color;
        } else if key_pos == 9 {
            self.la_color = normal_key_color;
        } else if key_pos == 10 {
            self.la_diese_color = diese_key_color;
        } else {
            self.si_color = normal_key_color;
        }
    }
}

/// The colours of the 88 keys of a piano: three keys, seven octaves and a
/// last key.
#[derive(Clone, Copy, Debug, PartialEq, Eq)]
pub struct KeysColor {
    pub la_0_color: KeyColor,
    pub la_diese_0_color: KeyColor,
    pub si_0_color: KeyColor,
    pub octaves: [OctaveColor; 7],
    pub do_8_color: KeyColor,
}

impl KeysColor {
    /// The colour of the key of `pitch`, a pitch of a piano.
    pub open spec fn color_of(self, pitch: u8) -> KeyColor {
        if pitch == LA_0 {
            self.la_0_color
        } else if pitch == LA_DIESE_0 {
            self.la_diese_0_color
        } else if pitch == SI_0 {
            self.si_0_color
        } else if pitch == DO_8 {
            self.do_8_color
        } else {
            self.octaves@[(pitch - DO_1) / 12].color_at((pitch - DO_1) % 12)
        }
    }

    /// A keyboard at rest.
    pub fn new() -> (keyboard: Self)
        ensures
            forall|pitch: u8|
                in_piano_range(pitch) ==> #[trigger] keyboard.color_of(pitch) == released_color(
                    pitch,
                ),
    {
        let octave = OctaveColor::new();
        let keyboard = KeysColor {
            la_0_color: KeyColor::White,
            la_diese_0_color: KeyColor::Black,
            si_0_color: KeyColor::White,
            octaves: [octave, octave, octave, octave, octave, octave, octave],
            do_8_color: KeyColor::White,
        };
        keyboard
    }

    fn set_color_(&mut self, pitch: u8, normal_key_color: KeyColor, diese_key_color: KeyColor)
        requires
            in_piano_range(pitch),
        ensures
            forall|p: u8|
                in_piano_range(p) ==> #[trigger] final(self).color_of(p) == if p == pitch {
                    key_color(pitch, normal_key_color, diese_key_color)
                } else {
                    old(self).color_of(p)
                },
    {
        if pitch == LA_0 {
            self.la_0_color = normal_key_color;
        } else if pitch == LA_DIESE_0 {
            self.la_diese_0_color = diese_key_color;
        } else if pitch == SI_0 {
            self.si_0_color = normal_key_color;
        } else if pitch == DO_8 {
            self.do_8_color = normal_key_color;
        } else {
            let octave_number: usize = ((pitch - DO_1) / 12) as usize;
            let key_pos: u8 = (pitch - DO_1) % 12;
            assert(key_color(key_pos, normal_key_color, diese_key_color) == key_color(
                pitch,
                normal_key_color,
                diese_key_color,
            ));
            let mut octave = self.octaves[octave_number];
            octave.set_key(key_pos, normal_key_color, diese_key_color);
            self.octaves[octave_number] = octave;
            assert forall|p: u8| in_piano_range(p) implies #[trigger] self.color_of(p) == if p
                == pitch {
                key_color(pitch, normal_key_color, diese_key_color)
            } else {
                old(self).color_of(p)
            } by {
                if DO_1 <= p < DO_8 {
                    let n = (p - DO_1) / 12;
                    let pos = (p - DO_1) % 12;
                    if n == octave_number {
                        if pos != key_pos {
                            assert(octave.color_at(pos) == old(self).octaves@[n].color_at(pos));
                        }
                    }
                }
            }
        }
    }

    /// Shows the key of `pitch` at rest.
    pub fn reset_color(&mut self, pitch: u8)
        requires
            in_piano_range(pitch),
        ensures
            forall|p: u8|
                in_piano_range(p) ==> #[trigger] final(self).color_of(p) == if p == pitch {
                    released_color(pitch)
                } else {
                    old(self).color_of(p)
                },
    {
        self.set_color_(pitch, KeyColor::White, KeyColor::Black);
    }

    /// Shows the key of `pitch` held down.
    pub fn set_color(&mut self, pitch: u8)
        requires
            in_piano_range(pitch),
        ensures
            forall|p: u8|
                in_piano_range(p) ==> #[trigger] final(self).color_of(p) == if p == pitch {
                    pressed_color(pitch)
                } else {
                    old(self).color_of(p)
                },
    {
        self.set_color_(pitch, KeyColor::Blue, KeyColor::Cyan);
    }
}

/// The test that a key event is about the key of `pitch`.
pub open spec fn touches(pitch: u8) -> spec_fn(KeyData) -> bool {
    |key: KeyData| key.pitch() == pitch
}

/// The colour of the key of `pitch` once the key events have happened: that
/// of the last of them that is about the key, and the colour before where
/// none is.
pub open spec fn color_after(before: KeyColor, key_events: Seq<KeyData>, pitch: u8) -> KeyColor {
    match last_index_where(key_events, touches(pitch)) {
        Some(last) => match key_events[last] {
            KeyData::Pressed(_) => pressed_color(pitch),
            KeyData::Released(_) => released_color(pitch),
        },
        None => before,
    }
}

/// Shows the keys as the key events leave them.
pub fn update_keyboard(keyboard: &mut KeysColor, key_events: &[KeyData])
    requires
        forall|i: int|
            0 <= i < key_events@.len() ==> in_piano_range((#[trigger] key_events@[i]).pitch()),
    ensures
        forall|p: u8|
            in_piano_range(p) ==> #[trigger] final(keyboard).color_of(p) == color_after(
                old(keyboard).color_of(p),
                key_events@,
                p,
            ),
{
    let ghost events = key_events@;
    let mut i: usize = 0;
    while i < key_events.len()
        invariant
            i <= key_events@.len(),
            events == key_events@,
            forall|k: int| 0 <= k < events.len() ==> in_piano_range((#[trigger] events[k]).pitch()),
            forall|p: u8|
                in_piano_range(p) ==> #[trigger] keyboard.color_of(p) == color_after(
                    old(keyboard).color_of(p),
                    events.take(i as int),
                    p,
                ),
        decreases key_events.len() - i,
    {
        let ghost before = *keyboard;
        proof {
            assert(events.take(i + 1).drop_last() == events.take(i as int));
        }
        match key_events[i] {
            KeyData::Pressed(pitch) => keyboard.set_color(pitch),
            KeyData::Released(pitch) => keyboard.reset_color(pitch),
        }
        proof {
            let key = events[i as int];
            assert forall|p: u8| in_piano_range(p) implies #[trigger] keyboard.color_of(p)
                == color_after(old(keyboard).color_of(p), events.take(i + 1), p) by {
                if touches(p)(key) {
                    assert(events.take(i + 1)[i as int] == key);
                } else {
                    assert(last_index_where(events.take(i + 1), touches(p)) == last_index_where(
                        events.take(i as int),
                        touches(p),
                    ));
                    assert(before.color_of(p) == color_after(
                        old(keyboard).color_of(p),
                        events.take(i as int),
                        p,
                    ));
                    if let Some(last) = last_index_where(events.take(i as int), touches(p)) {
                        crate::seq_search::lemma_last_index_where(
                            events.take(i as int),
                            touches(p),
                        );
                    }
                }
            }
        }
        i += 1;
    }
    assert(events.take(events.len() as int) == events);
}

/// The height of the keyboard on the screen, in cells.
pub const KEYBOARD_HEIGHT: usize = 8;

/// The width of the keyboard on the screen, in cells.
pub const KEYBOARD_WIDTH: usize = 188;

/// The width of an octave on the screen, in cells.
pub const OCTAVE_WIDTH: usize = 25;

/// Where the top left corner of the keyboard goes on a screen of the given
/// size: where the keyboard is centred, and at the edge in a direction in
/// which the screen is no larger than the keyboard.
pub open spec fn spec_ref_pos(width: usize, height: usize) -> (usize, usize) {
    (
        if width > KEYBOARD_WIDTH {
            ((width - KEYBOARD_WIDTH) / 2) as usize
        } else {
            0
        },
        if height > KEYBOARD_HEIGHT {
            ((height - KEYBOARD_HEIGHT) / 2) as usize
        } else {
            0
        },
    )
}

/// Where the top left corner of the keyboard goes on a screen of the given
/// size. From there the keyboard can be drawn.
pub fn init_ref_pos(width: usize, height: usize) -> (pos: (usize, usize))
    ensures
        pos == spec_ref_pos(width, height),
        pos.0 + KEYBOARD_WIDTH <= usize::MAX,
        pos.1 + KEYBOARD_HEIGHT <= usize::MAX,
{
    let ref_x = if width > KEYBOARD_WIDTH {
        (width - KEYBOARD_WIDTH) / 2
    } else {
        0
    };
    let ref_y = if height > KEYBOARD_HEIGHT {
        (height - KEYBOARD_HEIGHT) / 2
    } else {
        0
    };
    (ref_x, ref_y)
}

/// Something to draw on the screen.
#[derive(Clone, Copy, Debug, PartialEq, Eq)]
pub enum Shape {
    /// A key, or the part of it that shows: a rectangle of the colour of
    /// the key.
    Key { x: usize, y: usize, width: usize, height: usize, color: KeyColor },
    /// The black line between two keys, one cell wide, on the colour of the
    /// key that it is drawn on.
    Line { x: usize, y: usize, height: usize, background: KeyColor },
}

/// A key to draw.
pub open spec fn key_shape(x: int, y: int, width: int, height: int, color: KeyColor) -> Shape {
    Shape::Key {
        x: x as usize,
        y: y as usize,
        width: width as usize,
        height: height as usize,
        color,
    }
}

/// A line to draw.
pub open spec fn line_shape(x: int, y: int, height: int, background: KeyColor) -> Shape {
    Shape::Line { x: x as usize, y: y as usize, height: height as usize, background }
}

/// The shape lies in the rectangle of the given corner and size.
pub open spec fn shape_within(shape: Shape, left: int, top: int, width: int, height: int) -> bool {
    match shape {
        Shape::Key { x, y, width: w, height: h, color } => left <= x && x + w <= left + width
            && top <= y && y + h <= top + height,
        Shape::Line { x, y, height: h, background } => left <= x && x + 1 <= left + width && top
            <= y && y + h <= top + height,
    }
}

/// The shapes of an octave whose top left corner is at `x` and `y`, in the
/// order in which they are drawn: the white keys; the black keys between do
/// and mi and the lines below them; the black keys between fa and si and the
/// lines below them; the line between mi and fa.
pub open spec fn spec_octave_shapes(x: int, y: int, colors: OctaveColor) -> Seq<Shape> {
    seq![
        key_shape(x, y, 3, 8, colors.do_color),
        key_shape(x + 3, y, 4, 8, colors.re_color),
        key_shape(x + 7, y, 3, 8, colors.mi_color),
        key_shape(x + 10, y, 4, 8, colors.fa_color),
        key_shape(x + 14, y, 4, 8, colors.sol_color),
        key_shape(x + 18, y, 3, 8, colors.la_color),
        key_shape(x + 21, y, 4, 8, colors.si_color),
        key_shape(x + 2, y, 2, 5, colors.do_diese_color),
        key_shape(x + 6, y, 2, 5, colors.re_diese_color),
        line_shape(x + 3, y + 5, 3, colors.do_color),
        line_shape(x + 6, y + 5, 3, colors.re_color),
        key_shape(x + 13, y, 2, 5, colors.fa_diese_color),
        key_shape(x + 17, y, 2, 5, colors.sol_diese_color),
        key_shape(x + 21, y, 2, 5, colors.la_diese_color),
        line_shape(x + 14, y + 5, 3, colors.fa_color),
        line_shape(x + 18, y + 5, 3, colors.sol_color),
        line_shape(x + 21, y + 5, 3, colors.la_color),
        line_shape(x + 10, y, 8, colors.mi_color),
    ]
}

/// The shapes of an octave, in the order in which to draw them.
pub fn draw_octave(x: usize, y: usize, notes_color: &OctaveColor) -> (shapes: Vec<Shape>)
    requires
        x + OCTAVE_WIDTH <= usize::MAX,
        y + KEYBOARD_HEIGHT <= usize::MAX,
    ensures
        shapes@ == spec_octave_shapes(x as int, y as int, *notes_color),
        forall|i: int|
            0 <= i < shapes@.len() ==> shape_within(
                #[trigger] shapes@[i],
                x as int,
                y as int,
                OCTAVE_WIDTH as int,
                KEYBOARD_HEIGHT as int,
            ),
{
    let mut shapes: Vec<Shape> = Vec::new();
    shapes.push(Shape::Key { x, y, width: 3, height: 8, color: notes_color.do_color });
    shapes.push(Shape::Key { x: x + 3, y, width: 4, height: 8, color: notes_color.re_color });
    shapes.push(Shape::Key { x: x + 7, y, width: 3, height: 8, color: notes_color.mi_color });
    shapes.push(Shape::Key { x: x + 10, y, width: 4, height: 8, color: notes_color.fa_color });
    shapes.push(Shape::Key { x: x + 14, y, width: 4, height: 8, color: notes_color.sol_color });
    shapes.push(Shape::Key { x: x + 18, y, width: 3, height: 8, color: notes_color.la_color });
    shapes.push(Shape::Key { x: x + 21, y, width: 4, height: 8, color: notes_color.si_color });
    shapes.push(
        Shape::Key { x: x + 2, y, width: 2, height: 5, color: notes_color.do_diese_color },
    );
    shapes.push(
        Shape::Key { x: x + 6, y, width: 2, height: 5, color: notes_color.re_diese_color },
    );
    shapes.push(Shape::Line { x: x + 3, y: y + 5, height: 3, background: notes_color.do_color });
    shapes.push(Shape::Line { x: x + 6, y: y + 5, height: 3, background: notes_color.re_color });
    shapes.push(
        Shape::Key { x: x + 13, y, width: 2, height: 5, color: notes_color.fa_diese_color },
    );
    shapes.push(
        Shape::Key { x: x + 17, y, width: 2, height: 5, color: notes_color.sol_diese_color },
    );
    shapes.push(
        Shape::Key { x: x + 21, y, width: 2, height: 5, color: notes_color.la_diese_color },
    );
    shapes.push(Shape::Line { x: x + 14, y: y + 5, height: 3, background: notes_color.fa_color });
    shapes.push(Shape::Line { x: x + 18, y: y + 5, height: 3, background: notes_color.sol_color });
    shapes.push(Shape::Line { x: x + 21, y: y + 5, height: 3, background: notes_color.la_color });
    shapes.push(Shape::Line { x: x + 10, y, height: 8, background: notes_color.mi_color });
    shapes
}

/// The shapes of the first `count` octaves of a keyboard whose top left
/// corner is at `x` and `y`.
pub open spec fn spec_octaves_shapes(keyboard: KeysColor, x: int, y: int, count: int) -> Seq<Shape>
    decreases count,
{
    if count <= 0 {
        Seq::empty()
    } else {
        spec_octaves_shapes(keyboard, x, y, count - 1) + spec_octave_shapes(
            x + 8 + OCTAVE_WIDTH * (count - 1),
            y,
            keyboard.octaves@[count - 1],
        )
    }
}

/// The lines behind each of the first `count` octaves of a keyboard whose
/// top left corner is at `x` and `y`.
pub open spec fn spec_octave_lines(keyboard: KeysColor, x: int, y: int, count: int) -> Seq<Shape>
    decreases count,
{
    if count <= 0 {
        Seq::empty()
    } else {
        spec_octave_lines(keyboard, x, y, count - 1).push(
            line_shape(x + 8 + OCTAVE_WIDTH * count, y, 8, keyboard.octaves@[count - 1].si_color),
        )
    }
}

/// The shapes of a keyboard whose top left corner is at `x` and `y`, in the
/// order in which they are drawn: the three keys below the first octave and
/// the line between them; the seven octaves; the last key; the lines behind
/// the octaves; the line in front of the first octave.
pub open spec fn spec_keyboard_shapes(keyboard: KeysColor, x: int, y: int) -> Seq<Shape> {
    seq![
        key_shape(x + 1, y, 3, 8, keyboard.la_0_color),
        key_shape(x + 4, y, 4, 8, keyboard.si_0_color),
        key_shape(x + 4, y, 2, 5, keyboard.la_diese_0_color),
        line_shape(x + 4, y + 5, 3, keyboard.la_0_color),
    ] + spec_octaves_shapes(keyboard, x, y, 7) + seq![
        key_shape(x + 8 + OCTAVE_WIDTH * 7, y, 4, 8, keyboard.do_8_color),
    ] + spec_octave_lines(keyboard, x, y, 7) + seq![
        line_shape(x + 8, y, 8, keyboard.si_0_color),
    ]
}

/// The shapes of the keyboard, in the order in which to draw them. All lie
/// in the rectangle of the keyboard.
pub fn draw_keyboard(keyboard: &KeysColor, pos_x: usize, pos_y: usize) -> (shapes: Vec<Shape>)
    requires
        pos_x + KEYBOARD_WIDTH <= usize::MAX,
        pos_y + KEYBOARD_HEIGHT <= usize::MAX,
    ensures
        shapes@ == spec_keyboard_shapes(*keyboard, pos_x as int, pos_y as int),
        forall|i: int|
            0 <= i < shapes@.len() ==> shape_within(
                #[trigger] shapes@[i],
                pos_x as int,
                pos_y as int,
                KEYBOARD_WIDTH as int,
                KEYBOARD_HEIGHT as int,
            ),
{
    let ghost x = pos_x as int;
    let ghost y = pos_y as int;
    let mut shapes: Vec<Shape> = Vec::new();
    shapes.push(
        Shape::Key { x: pos_x + 1, y: pos_y, width: 3, height: 8, color: keyboard.la_0_color },
    );
    shapes.push(
        Shape::Key { x: pos_x + 4, y: pos_y, width: 4, height: 8, color: keyboard.si_0_color },
    );
    shapes.push(
        Shape::Key {
            x: pos_x + 4,
            y: pos_y,
            width: 2,
            height: 5,
            color: keyboard.la_diese_0_color,
        },
    );
    shapes.push(
        Shape::Line { x: pos_x + 4, y: pos_y + 5, height: 3, background: keyboard.la_0_color },
    );
    let ghost head = shapes@;
    assert(head =~= seq![
        key_shape(x + 1, y, 3, 8, keyboard.la_0_color),
        key_shape(x + 4, y, 4, 8, keyboard.si_0_color),
        key_shape(x + 4, y, 2, 5, keyboard.la_diese_0_color),
        line_shape(x + 4, y + 5, 3, keyboard.la_0_color),
    ]);
    let mut i: usize = 0;
    while i < 7
        invariant
            i <= 7,
            x == pos_x as int,
            y == pos_y as int,
            pos_x + KEYBOARD_WIDTH <= usize::MAX,
            pos_y + KEYBOARD_HEIGHT <= usize::MAX,
            shapes@ == head + spec_octaves_shapes(*keyboard, x, y, i as int),
            forall|k: int|
                0 <= k < shapes@.len() ==> shape_within(
                    #[trigger] shapes@[k],
                    x,
                    y,
                    KEYBOARD_WIDTH as int,
                    KEYBOARD_HEIGHT as int,
                ),
        decreases 7 - i,
    {
        let mut octave = draw_octave(pos_x + 8 + OCTAVE_WIDTH * i, pos_y, &keyboard.octaves[i]);
        shapes.append(&mut octave);
        i += 1;
    }
    shapes.push(
        Shape::Key {
            x: pos_x + 8 + OCTAVE_WIDTH * 7,
            y: pos_y,
            width: 4,
            height: 8,
            color: keyboard.do_8_color,
        },
    );
    let ghost keys = shapes@;
    assert(keys == head + spec_octaves_shapes(*keyboard, x, y, 7) + seq![
        key_shape(x + 8 + OCTAVE_WIDTH * 7, y, 4, 8, keyboard.do_8_color),
    ]);
    i = 0;
    while i < 7
        invariant
            i <= 7,
            x == pos_x as int,
            y == pos_y as int,
            pos_x + KEYBOARD_WIDTH <= usize::MAX,
            pos_y + KEYBOARD_HEIGHT <= usize::MAX,
            shapes@ == keys + spec_octave_lines(*keyboard, x, y, i as int),
            forall|k: int|
                0 <= k < shapes@.len() ==> shape_within(
                    #[trigger] shapes@[k],
                    x,
                    y,
                    KEYBOARD_WIDTH as int,
                    KEYBOARD_HEIGHT as int,
                ),
        decreases 7 - i,
    {
        shapes.push(
            Shape::Line {
                x: pos_x + 8 + OCTAVE_WIDTH * (i + 1),
                y: pos_y,
                height: 8,
                background: keyboard.octaves[i].si_color,
            },
        );
        i += 1;
    }
    shapes.push(
        Shape::Line { x: pos_x + 8, y: pos_y, height: 8, background: keyboard.si_0_color },
    );
    shapes
}

/// What a player is about.
#[derive(Clone, Copy, Debug, PartialEq, Eq)]
pub struct PlayerState {
    /// The player is asked to stop.
    pub exit_requested: bool,
    /// The song does not go on for now.
    pub is_in_pause: bool,
    /// The column of the top left corner of the keyboard.
    pub ref_x: usize,
    /// The row of the top left corner of the keyboard.
    pub ref_y: usize,
}

/// A signal that the player listens to.
#[derive(Clone, Copy, Debug, PartialEq, Eq)]
pub enum Signal {
    Interrupt,
    Continue,
    Quit,
    Stop,
    Terminate,
    Other,
}

/// What a signal asks of the player.
#[derive(Clone, Copy, Debug, PartialEq, Eq)]
pub enum Request {
    Pause,
    Continue,
    Exit,
}

/// What the signal asks of the player: an interrupt asks for a pause; quit,
/// stop and terminate ask for the exit.
pub fn request_of_signal(signal: Signal) -> (request: Option<Request>)
    ensures
        request == match signal {
            Signal::Interrupt => Some(Request::Pause),
            Signal::Continue => Some(Request::Continue),
            Signal::Quit | Signal::Stop | Signal::Terminate => Some(Request::Exit),
            Signal::Other => None,
        },
{
    match signal {
        Signal::Interrupt => Some(Request::Pause),
        Signal::Continue => Some(Request::Continue),
        Signal::Quit => Some(Request::Exit),
        Signal::Stop => Some(Request::Exit),
        Signal::Terminate => Some(Request::Exit),
        Signal::Other => None,
    }
}

/// The state once the requests that came by signal are taken in: a request
/// to continue ends a pause, also one asked for at the same time.
pub fn apply_requests(state: PlayerState, exit: bool, pause: bool, go_on: bool) -> (next:
    PlayerState)
    ensures
        next.exit_requested == (state.exit_requested || exit),
        next.is_in_pause == (!go_on && (pause || state.is_in_pause)),
        next.ref_x == state.ref_x,
        next.ref_y == state.ref_y,
{
    PlayerState {
        exit_requested: state.exit_requested || exit,
        is_in_pause: !go_on && (pause || state.is_in_pause),
        ref_x: state.ref_x,
        ref_y: state.ref_y,
    }
}

/// The longest time to wait for something to happen on the screen: 100 ms.
pub const POLL_PERIOD_NS: u64 = 100_000_000;

/// What the player does next while it waits for the next moment of the song.
#[derive(Clone, Copy, Debug, PartialEq, Eq)]
pub enum Pace {
    /// Stop playing.
    Exit,
    /// Go on to the next moment.
    NextEvent,
    /// Wait for something to happen on the screen, for this long at most.
    Poll { timeout_ns: u64 },
}

/// What the player does next, `time_to_wait_ns` being the time between this
/// moment of the song and the next, and `waited_ns` the time since this
/// moment. It stops where it is asked to. It goes on where it is not in
/// pause and has waited longer than the time to wait. It waits otherwise:
/// for what is left of the time to wait, and for 100 ms at most, or where
/// nothing is left.
pub fn next_pace(state: PlayerState, time_to_wait_ns: u64, waited_ns: u64) -> (pace: Pace)
    ensures
        pace == if state.exit_requested {
            Pace::Exit
        } else if !state.is_in_pause && waited_ns > time_to_wait_ns {
            Pace::NextEvent
        } else if time_to_wait_ns > waited_ns && time_to_wait_ns - waited_ns < POLL_PERIOD_NS {
            (Pace::Poll { timeout_ns: (time_to_wait_ns - waited_ns) as u64 })
        } else {
            (Pace::Poll { timeout_ns: POLL_PERIOD_NS })
        },
{
    if state.exit_requested {
        Pace::Exit
    } else if !state.is_in_pause && waited_ns > time_to_wait_ns {
        Pace::NextEvent
    } else if time_to_wait_ns > waited_ns && time_to_wait_ns - waited_ns < POLL_PERIOD_NS {
        Pace::Poll { timeout_ns: time_to_wait_ns - waited_ns }
    } else {
        Pace::Poll { timeout_ns: POLL_PERIOD_NS }
    }
}

/// What happens on the screen.
#[derive(Clone, Copy, Debug, PartialEq, Eq)]
pub enum UiEvent {
    NoEvent,
    Mouse,
    /// The screen has a new size.
    Resize { width: usize, height: usize },
    /// The key that stops the player.
    Quit,
    /// The key that starts and ends a pause.
    TogglePause,
    OtherKey,
}

/// The state behind what happened on the screen while a song plays: a new
/// size moves the keyboard, one key asks for the exit, another starts or ends
/// a pause.
pub open spec fn spec_on_ui_event(state: PlayerState, event: UiEvent) -> PlayerState {
    match event {
        UiEvent::Resize { width, height } => PlayerState {
            ref_x: spec_ref_pos(width, height).0,
            ref_y: spec_ref_pos(width, height).1,
            ..state
        },
        UiEvent::Quit => PlayerState { exit_requested: true, ..state },
        UiEvent::TogglePause => PlayerState { is_in_pause: !state.is_in_pause, ..state },
        _ => state,
    }
}

/// The state behind what happened on the screen while a song plays.
pub fn on_ui_event(state: PlayerState, event: UiEvent) -> (next: PlayerState)
    ensures
        next == spec_on_ui_event(state, event),
{
    match event {
        UiEvent::Resize { width, height } => {
            let (ref_x, ref_y) = init_ref_pos(width, height);
            PlayerState { ref_x, ref_y, ..state }
        },
        UiEvent::Quit => PlayerState { exit_requested: true, ..state },
        UiEvent::TogglePause => PlayerState { is_in_pause: !state.is_in_pause, ..state },
        _ => state,
    }
}

/// The state behind what happened on the screen while an input device is
/// listened to: as while a song plays, but that there is no pause.
pub fn on_input_ui_event(state: PlayerState, event: UiEvent) -> (next: PlayerState)
    ensures
        next == if event is TogglePause {
            state
        } else {
            spec_on_ui_event(state, event)
        },
{
    match event {
        UiEvent::TogglePause => state,
        _ => on_ui_event(state, event),
    }
}

/// The time between moment `index` of the song and the next, in nanoseconds;
/// nothing behind the last moment.
pub fn time_to_wait(song: &Song, index: usize) -> (time: Option<u64>)
    requires
        is_strictly_increasing(song.deep_view()),
    ensures
        index + 1 < song@.len() ==> time == Some(
            (song@[index + 1].time_in_ns - song@[index as int].time_in_ns) as u64,
        ),
        index + 1 >= song@.len() ==> time.is_none(),
{
    if index < song.len() && index + 1 < song.len() {
        let ghost moments = song.deep_view();
        assert(moments[index as int].time_in_ns < moments[index + 1].time_in_ns);
        Some(song[index + 1].time_in_ns - song[index].time_in_ns)
    } else {
        None
    }
}

/// The whole seconds of a time in nanoseconds, and the nanoseconds left.
pub fn split_seconds(time_in_ns: u64) -> (parts: (u64, u32))
    ensures
        parts.0 * 1_000_000_000 + parts.1 == time_in_ns,
        parts.1 < 1_000_000_000,
{
    let one_billion: u64 = 1_000_000_000;
    (time_in_ns / one_billion, (time_in_ns % one_billion) as u32)
}

} // verus!
