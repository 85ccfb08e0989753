//! What the screen shows, computed as texts at positions: the words, the
//! border of the field, the shield and the toolbar. Printing them is left to
//! the program around the library.

use vstd::prelude::*;
use vstd::utf8::{encode_utf8, is_char_boundary};
use crate::structs::{Field, Player, Word, SHIELD_POSITION};
use crate::text::{byte_len, byte_len_within, int_text, push_char, push_i32, push_repeated, push_text, repeated};

verus! {

/// A text to print at a position of the screen.
pub struct Sprite {
    pub x: i32,
    pub y: i32,
    pub text: String,
    /// Printed in the colour of a word that is being typed.
    pub highlighted: bool,
}

/// Where the word's text ends: its length in bytes (cast to `i32`, as the
/// game does) added to its column.
pub open spec fn text_end(w: Word) -> int {
    ((byte_len(w.word@) as i32) as int) + w.x
}

/// Truncating the word at `width` succeeds: the arithmetic stays within
/// `i32`, and where the word reaches past `width`, the cut falls inside the
/// word and on a character boundary.
pub open spec fn truncation_ok(w: Word, width: int) -> bool {
    let over = text_end(w) - width;
    &&& byte_len(w.word@) <= usize::MAX
    &&& i32::MIN <= text_end(w) <= i32::MAX
    &&& i32::MIN <= over <= i32::MAX
    &&& over >= 0 ==> {
        &&& over <= byte_len(w.word@)
        &&& is_char_boundary(encode_utf8(w.word@), byte_len(w.word@) - over)
    }
}

/// `r` is the word cut at `width`: the whole word where it ends before
/// `width`, else its bytes up to the point where it would pass `width`.
pub open spec fn truncated(w: Word, width: int, r: Seq<char>) -> bool {
    let over = text_end(w) - width;
    if over < 0 {
        r == w.word@
    } else {
        encode_utf8(r) == encode_utf8(w.word@).subrange(0, byte_len(w.word@) - over)
    }
}

/// The part of the word that fits left of column `width`.
pub fn truncate_word(word: &mut Word, width: i32) -> (r: String)
    requires
        truncation_ok(*old(word), width as int),
    ensures
        truncated(*old(word), width as int, r@),
        *final(word) == *old(word),
{
    let len: usize = word.word.as_str().len();
    let wordlength: i32 = len as i32 + word.x;
    let overflow: i32 = wordlength - width;
    if overflow < 0 {
        word.word.clone()
    } else {
        let k: usize = len - overflow as usize;
        let (a, _b) = word.word.as_str().split_at(k);
        a.to_string()
    }
}

/// The word is on screen: enabled and not yet completed.
pub open spec fn drawn(w: Word) -> bool {
    w.enabled && !w.completed
}

/// `s` is the sprite of word `w` on a field `width` wide: the word cut left
/// of the field's right border, after a space, at the word's position,
/// highlighted when the word has been hit or started.
pub open spec fn word_sprite(w: Word, width: i32, s: Sprite) -> bool {
    &&& s.x == w.x
    &&& s.y == w.y
    &&& s.highlighted == (w.hit || w.started)
    &&& s.text@.len() > 0
    &&& s.text@[0] == ' '
    &&& truncated(w, width - 1, s.text@.drop_first())
}

/// `w2` is `w` after it was drawn: a word on screen with no letters left
/// becomes completed; nothing else changes.
pub open spec fn drawn_word(w: Word, w2: Word) -> bool {
    &&& w2.word@ == w.word@
    &&& w2.original_word@ == w.original_word@
    &&& w2.x == w.x
    &&& w2.y == w.y
    &&& w2.started == w.started
    &&& w2.enabled == w.enabled
    &&& w2.completed == (w.completed || (drawn(w) && w.word@.len() == 0))
    &&& w2.hit == w.hit
}

/// Draws one word: the sprite to print, if the word is on screen; a word on
/// screen with no letters left becomes completed.
pub fn draw_word(word: &mut Word, truncated_word: String) -> (s: Option<Sprite>)
    ensures
        drawn_word(*old(word), *final(word)),
        s is Some <==> drawn(*old(word)),
        s matches Some(sp) ==> {
            &&& sp.x == old(word).x
            &&& sp.y == old(word).y
            &&& sp.highlighted == (old(word).hit || old(word).started)
            &&& sp.text@ == truncated_word@
        },
{
    if word.enabled && !word.completed {
        let sp = Sprite {
            x: word.x,
            y: word.y,
            text: truncated_word,
            highlighted: word.hit || word.started,
        };
        if word.word.as_str().is_empty() {
            word.completed = true;
        }
        Some(sp)
    } else {
        None
    }
}

/// Draws the words: for each word, its sprite if it is on screen (see
/// `word_sprite`); words on screen with no letters left become completed.
pub fn draw_words(words: &mut Vec<Word>, field: &Field) -> (sprites: Vec<Option<Sprite>>)
    requires
        field.width > i32::MIN,
        forall|i: int|
            0 <= i < old(words)@.len() ==> truncation_ok(
                #[trigger] old(words)@[i],
                field.width - 1,
            ),
    ensures
        final(words)@.len() == old(words)@.len(),
        sprites@.len() == old(words)@.len(),
        forall|i: int|
            0 <= i < old(words)@.len() ==> {
                &&& drawn_word(#[trigger] old(words)@[i], final(words)@[i])
                &&& (sprites@[i] is Some <==> drawn(old(words)@[i]))
                &&& (sprites@[i] matches Some(s) ==> word_sprite(old(words)@[i], field.width, s))
            },
{
    let ghost ws = words@;
    let n = words.len();
    let mut sprites: Vec<Option<Sprite>> = Vec::new();
    for i in 0..n
        invariant
            n == ws.len(),
            words@.len() == n,
            sprites@.len() == i,
            field.width > i32::MIN,
            forall|j: int| 0 <= j < n ==> truncation_ok(#[trigger] ws[j], field.width - 1),
            forall|j: int|
                0 <= j < i ==> {
                    &&& drawn_word(#[trigger] ws[j], words@[j])
                    &&& (sprites@[j] is Some <==> drawn(ws[j]))
                    &&& (sprites@[j] matches Some(s) ==> word_sprite(ws[j], field.width, s))
                },
            forall|j: int| i <= j < n ==> #[trigger] words@[j] == ws[j],
    {
        assert(words@[i as int] == ws[i as int]);
        let t = truncate_word(&mut words[i], field.width - 1);
        let mut text = String::new();
        push_char(&mut text, ' ');
        push_text(&mut text, t.as_str());
        assert(text@.drop_first() =~= t@);
        let sp = draw_word(&mut words[i], text);
        sprites.push(sp);
    }
    sprites
}

/// A sprite as the contracts see it: column, row, text and highlighting.
pub type SpriteView = (int, int, Seq<char>, bool);

/// The view of a sprite.
pub open spec fn sprite_view(s: Sprite) -> SpriteView {
    (s.x as int, s.y as int, s.text@, s.highlighted)
}

/// The views of a sequence of sprites.
pub open spec fn sprite_views(v: Seq<Sprite>) -> Seq<SpriteView> {
    v.map_values(|s: Sprite| sprite_view(s))
}

/// A plain sprite.
pub open spec fn plain(x: int, y: int, text: Seq<char>) -> SpriteView {
    (x, y, text, false)
}

/// The sides of the border: on each row from the fourth to the one above the
/// bottom, a `|` in the first column and one in the last.
pub open spec fn border_sides(field: Field) -> Seq<SpriteView> {
    let rows = if field.height - 1 > 3 {
        (field.height - 4) as nat
    } else {
        0nat
    };
    Seq::new(
        2 * rows,
        |i: int|
            if i % 2 == 0 {
                plain(0, 3 + i / 2, seq!['|'])
            } else {
                plain(field.width - 1, 3 + i / 2, seq!['|'])
            },
    )
}

/// The border of the field: a top edge `/---\` on the third row, the sides,
/// and a bottom edge `\---/` on the last row.
pub open spec fn border_spec(field: Field) -> Seq<SpriteView> {
    let dashes = repeated('-', (field.width - 2) as nat);
    seq![plain(0, 2, seq!['/'] + dashes + seq!['\\'])] + border_sides(field) + seq![
        plain(0, field.height - 1, seq!['\\'] + dashes + seq!['/']),
    ]
}

fn sprite(x: i32, y: i32, text: String) -> (s: Sprite)
    ensures
        sprite_view(s) == plain(x as int, y as int, text@),
{
    Sprite { x, y, text, highlighted: false }
}

fn single(c: char) -> (s: String)
    ensures
        s@ == seq![c],
{
    let mut s = String::new();
    push_char(&mut s, c);
    assert(s@ =~= seq![c]);
    s
}

/// The sprites of the field's border.
pub fn draw_border(field: &Field) -> (sprites: Vec<Sprite>)
    requires
        field.width >= 2,
        field.height > i32::MIN,
    ensures
        sprite_views(sprites@) == border_spec(*field),
{
    let n: usize = (field.width - 2) as usize;
    let mut top = String::new();
    push_char(&mut top, '/');
    push_repeated(&mut top, '-', n);
    push_char(&mut top, '\\');
    let mut sprites: Vec<Sprite> = Vec::new();
    sprites.push(sprite(0, 2, top));
    let ghost sides = border_sides(*field);
    let ghost head = sprite_views(sprites@);
    let mut y: i32 = 3;
    let last: i32 = field.height - 1;
    let ghost rows: int = if last > 3 {
        last - 3
    } else {
        0
    };
    while y < last
        invariant
            3 <= y,
            last > 3 ==> y <= last,
            last <= 3 ==> y == 3,
            last == field.height - 1,
            field.width >= 2,
            rows == (if last > 3 {
                last - 3
            } else {
                0
            }),
            sides == border_sides(*field),
            sides.len() == 2 * rows,
            head.len() == 1,
            y < last ==> y - 3 < rows,
            sprite_views(sprites@) =~= head + sides.take(2 * (y - 3)),
        decreases last - y,
    {
        let ghost before = sprites@;
        let s1 = sprite(0, y, single('|'));
        let s2 = sprite(field.width - 1, y, single('|'));
        let ghost v1 = sprite_view(s1);
        let ghost v2 = sprite_view(s2);
        sprites.push(s1);
        sprites.push(s2);
        assert(sprite_views(sprites@) =~= sprite_views(before).push(v1).push(v2));
        assert(sides[2 * (y - 3)] == plain(0, y as int, seq!['|']));
        assert(sides[2 * (y - 3) + 1] == plain(field.width - 1, y as int, seq!['|']));
        assert(sides.take(2 * (y - 3) + 2) =~= sides.take(2 * (y - 3)).push(
            sides[2 * (y - 3)],
        ).push(sides[2 * (y - 3) + 1]));
        y = y + 1;
        assert(sprite_views(sprites@) =~= head + sides.take(2 * (y - 3)));
    }
    assert(2 * (y - 3) == sides.len());
    assert(sides.take(2 * (y - 3)) =~= sides);
    let mut bottom = String::new();
    push_char(&mut bottom, '\\');
    push_repeated(&mut bottom, '-', n);
    push_char(&mut bottom, '/');
    let ghost before = sprites@;
    let sb = sprite(0, last, bottom);
    let ghost vb = sprite_view(sb);
    sprites.push(sb);
    assert(sprite_views(sprites@) =~= sprite_views(before).push(vb));
    assert(vb == plain(0, field.height - 1, seq!['\\'] + repeated('-', (field.width - 2) as nat) + seq!['/']));
    assert(top@ =~= seq!['/'] + repeated('-', (field.width - 2) as nat) + seq!['\\']);
    assert(sprite_views(sprites@) =~= border_spec(*field));
    sprites
}

/// The shield: in the shield's column, a `|` and a `v` on the fourth and
/// fifth rows, `#` on each row from the sixth to the fourth from the bottom,
/// then a `^` and a `|` on the third and second rows from the bottom.
pub open spec fn shield_spec(field: Field) -> Seq<SpriteView> {
    let rows = if field.height - 3 > 5 {
        (field.height - 8) as nat
    } else {
        0nat
    };
    seq![plain(SHIELD_POSITION as int, 3, seq!['|']), plain(SHIELD_POSITION as int, 4, seq!['v'])]
        + Seq::new(rows, |i: int| plain(SHIELD_POSITION as int, 5 + i, seq!['#'])) + seq![
        plain(SHIELD_POSITION as int, field.height - 3, seq!['^']),
        plain(SHIELD_POSITION as int, field.height - 2, seq!['|']),
    ]
}

/// The sprites of the shield.
pub fn draw_shield(field: &Field) -> (sprites: Vec<Sprite>)
    requires
        field.height >= i32::MIN + 3,
    ensures
        sprite_views(sprites@) == shield_spec(*field),
{
    let mut sprites: Vec<Sprite> = Vec::new();
    let a = sprite(SHIELD_POSITION, 3, single('|'));
    let b = sprite(SHIELD_POSITION, 4, single('v'));
    let ghost va = sprite_view(a);
    let ghost vb = sprite_view(b);
    sprites.push(a);
    sprites.push(b);
    let ghost head = seq![va, vb];
    assert(sprite_views(sprites@) =~= head);
    let last: i32 = field.height - 3;
    let ghost rows: int = if last > 5 {
        last - 5
    } else {
        0
    };
    let ghost body = Seq::new(rows as nat, |i: int| plain(SHIELD_POSITION as int, 5 + i, seq!['#']));
    let mut y: i32 = 5;
    while y < last
        invariant
            5 <= y,
            last > 5 ==> y <= last,
            last <= 5 ==> y == 5,
            last == field.height - 3,
            rows == (if last > 5 {
                last - 5
            } else {
                0
            }),
            body == Seq::new(rows as nat, |i: int| plain(SHIELD_POSITION as int, 5 + i, seq!['#'])),
            sprite_views(sprites@) =~= head + body.take(y - 5),
        decreases last - y,
    {
        let ghost before = sprites@;
        let s1 = sprite(SHIELD_POSITION, y, single('#'));
        let ghost v1 = sprite_view(s1);
        sprites.push(s1);
        assert(sprite_views(sprites@) =~= sprite_views(before).push(v1));
        assert(body.take(y - 4) =~= body.take(y - 5).push(body[y - 5]));
        y = y + 1;
    }
    assert(body.take(y - 5) =~= body);
    let c = sprite(SHIELD_POSITION, field.height - 3, single('^'));
    let d = sprite(SHIELD_POSITION, field.height - 2, single('|'));
    let ghost vc = sprite_view(c);
    let ghost vd = sprite_view(d);
    let ghost before = sprites@;
    sprites.push(c);
    sprites.push(d);
    assert(sprite_views(sprites@) =~= sprite_views(before).push(vc).push(vd));
    assert(sprite_views(sprites@) =~= shield_spec(*field));
    sprites
}

/// The toolbar on the second row: the score, the level, a gauge of fifteen
/// dots for the shields, and over it one `>` per shield left.
pub open spec fn toolbar_spec(player: Player) -> Seq<SpriteView> {
    seq![
        plain(5, 1, "Score: "@ + int_text(player.score as int)),
        plain(25, 1, "Level: "@ + int_text(player.level as int)),
        plain(47, 1, "Shields: [ "@ + repeated('.', 15) + " ]"@),
        plain(58, 1, repeated('>', if player.shields > 0 { player.shields as nat } else { 0 })),
    ]
}

/// The sprites of the toolbar; the row is cleared before they are printed.
pub fn draw_toolbar(player: &Player) -> (sprites: Vec<Sprite>)
    ensures
        sprite_views(sprites@) == toolbar_spec(*player),
{
    let mut score = "Score: ".to_string();
    push_i32(&mut score, player.score);
    let mut level = "Level: ".to_string();
    push_i32(&mut level, player.level);
    let mut gauge = "Shields: [ ".to_string();
    push_repeated(&mut gauge, '.', 15);
    push_text(&mut gauge, " ]");
    let mut shields = String::new();
    let n: usize = if player.shields > 0 {
        player.shields as usize
    } else {
        0
    };
    push_repeated(&mut shields, '>', n);
    assert(shields@ =~= repeated('>', if player.shields > 0 { player.shields as nat } else { 0 }));
    let a = sprite(5, 1, score);
    let b = sprite(25, 1, level);
    let c = sprite(47, 1, gauge);
    let d = sprite(58, 1, shields);
    let ghost vs = seq![sprite_view(a), sprite_view(b), sprite_view(c), sprite_view(d)];
    let mut sprites: Vec<Sprite> = Vec::new();
    sprites.push(a);
    sprites.push(b);
    sprites.push(c);
    sprites.push(d);
    assert(sprite_views(sprites@) =~= vs);
    sprites
}

/// The cut word never reaches past the border: its column plus its length
/// in bytes is at most `width`.
pub proof fn lemma_truncated_fits(w: Word, width: int, r: Seq<char>)
    requires
        truncation_ok(w, width),
        truncated(w, width, r),
        byte_len(w.word@) <= i32::MAX,
    ensures
        byte_len(r) + w.x <= width,
{
    let l = byte_len(w.word@);
    assert(((l as i32) as int) == l);
    let over = text_end(w) - width;
    if over >= 0 {
        assert(encode_utf8(r).len() == l - over);
    }
}

/// Whether the word can be cut at `width` without a fault (see
/// `truncation_ok`).
pub fn can_truncate(word: &Word, width: i32) -> (ok: bool)
    ensures
        ok == truncation_ok(*word, width as int),
{
    let len = match byte_len_within(word.word.as_str(), usize::MAX) {
        Some(l) => l,
        None => {
            return false;
        },
    };
    let end: i64 = (len as i32) as i64 + word.x as i64;
    if end < i32::MIN as i64 || end > i32::MAX as i64 {
        return false;
    }
    let over: i64 = end - width as i64;
    if over < i32::MIN as i64 || over > i32::MAX as i64 {
        return false;
    }
    if over >= 0 {
        if over as u64 > len as u64 {
            return false;
        }
        let k: usize = len - over as usize;
        word.word.as_str().is_char_boundary(k)
    } else {
        true
    }
}

/// Whether `draw_words` can draw the words on the field without a fault.
pub fn can_draw_words(words: &Vec<Word>, field: &Field) -> (ok: bool)
    ensures
        ok == (field.width > i32::MIN && forall|i: int|
            0 <= i < words@.len() ==> truncation_ok(#[trigger] words@[i], field.width - 1)),
{
    if field.width == i32::MIN {
        return false;
    }
    for i in 0..words.len()
        invariant
            field.width > i32::MIN,
            forall|j: int| 0 <= j < i ==> truncation_ok(#[trigger] words@[j], field.width - 1),
    {
        if !can_truncate(&words[i], field.width - 1) {
            return false;
        }
    }
    true
}

} // verus!
