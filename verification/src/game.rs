//! The rules of the game: typing letters off the words, moving them towards
//! the shield, the shield taking hits, levels and speed.

use vstd::prelude::*;
use crate::structs::{Field, Player, Word, INITIAL_SPEED, SHIELD_POSITION};
use crate::random::random_below;
use crate::text::{byte_len, chars_of, string_from};

verus! {

/// `p` is a prefix of `s` (as `str::starts_with` tests it).
pub open spec fn is_prefix(p: Seq<char>, s: Seq<char>) -> bool {
    p.len() <= s.len() && s.take(p.len() as int) == p
}

/// An ASCII character: one that takes one byte in UTF-8.
pub open spec fn is_ascii_char(c: char) -> bool {
    (c as u32) < 128
}

/// The text has a first character, and it takes one byte, so that slicing off
/// the first byte (`&s[1..]`) succeeds.
pub open spec fn first_byte_removable(s: Seq<char>) -> bool {
    s.len() > 0 && is_ascii_char(s[0])
}

/// Some word has been started.
pub open spec fn any_started(ws: Seq<Word>) -> bool {
    exists|i: int| 0 <= i < ws.len() && #[trigger] ws[i].started
}

/// The key types a letter off the word: the word begins with the key, and it
/// is the word being typed, or no word is being typed yet.
pub open spec fn types_into(w: Word, key: Seq<char>, started_any: bool) -> bool {
    is_prefix(key, w.word@) && (w.started || !started_any)
}

/// How many of the words the key types a letter off.
pub open spec fn typed_count(ws: Seq<Word>, key: Seq<char>, started_any: bool) -> nat
    decreases ws.len(),
{
    if ws.len() == 0 {
        0
    } else {
        typed_count(ws.drop_last(), key, started_any) + if types_into(
            ws.last(),
            key,
            started_any,
        ) {
            1nat
        } else {
            0nat
        }
    }
}

/// `w2` is `w` with its first letter typed away: the word loses its first
/// character and moves one column right, and it is started and hit.
pub open spec fn typed_word(w: Word, w2: Word) -> bool {
    &&& w2.word@ == w.word@.drop_first()
    &&& w2.original_word@ == w.original_word@
    &&& w2.x == w.x + 1
    &&& w2.y == w.y
    &&& w2.started
    &&& w2.enabled == w.enabled
    &&& w2.completed == w.completed
    &&& w2.hit
}

/// `w2` is `w`, field by field.
pub open spec fn same_word(w: Word, w2: Word) -> bool {
    &&& w2.word@ == w.word@
    &&& w2.original_word@ == w.original_word@
    &&& w2.x == w.x
    &&& w2.y == w.y
    &&& w2.started == w.started
    &&& w2.enabled == w.enabled
    &&& w2.completed == w.completed
    &&& w2.hit == w.hit
}

/// The text without its first character, which takes one byte.
fn without_first(s: &String) -> (r: String)
    requires
        first_byte_removable(s@),
    ensures
        r@ == s@.drop_first(),
{
    let cs = chars_of(s.as_str());
    let r = string_from(&cs, 1, cs.len());
    assert(r@ =~= s@.drop_first());
    r
}

/// Whether `s` begins with `p`.
fn starts_with(s: &str, p: &str) -> (b: bool)
    ensures
        b == is_prefix(p@, s@),
{
    let sc = chars_of(s);
    let pc = chars_of(p);
    if pc.len() > sc.len() {
        return false;
    }
    let mut i: usize = 0;
    while i < pc.len()
        invariant
            pc@ == p@,
            sc@ == s@,
            pc@.len() <= sc@.len(),
            i <= pc@.len(),
            forall|j: int| 0 <= j < i ==> sc@[j] == pc@[j],
        decreases pc@.len() - i,
    {
        if sc[i] != pc[i] {
            assert(s@.take(p@.len() as int)[i as int] != p@[i as int]);
            return false;
        }
        i = i + 1;
    }
    assert(s@.take(p@.len() as int) =~= p@);
    true
}

/// Types `key`: every word that the key types into (see `types_into`) loses
/// its first letter, moves one column right, becomes started and hit, and
/// earns the player a point. Other words and the rest of the player stay.
pub fn update_words(key: String, words: &mut Vec<Word>, player: &mut Player)
    requires
        forall|i: int|
            0 <= i < old(words)@.len() && types_into(
                #[trigger] old(words)@[i],
                key@,
                any_started(old(words)@),
            ) ==> first_byte_removable(old(words)@[i].word@) && old(words)@[i].x < i32::MAX,
        old(player).score + typed_count(old(words)@, key@, any_started(old(words)@))
            <= i32::MAX,
    ensures
        final(words)@.len() == old(words)@.len(),
        forall|i: int|
            0 <= i < old(words)@.len() ==> if types_into(
                #[trigger] old(words)@[i],
                key@,
                any_started(old(words)@),
            ) {
                typed_word(old(words)@[i], final(words)@[i])
            } else {
                same_word(old(words)@[i], final(words)@[i])
            },
        final(player).score == old(player).score + typed_count(
            old(words)@,
            key@,
            any_started(old(words)@),
        ),
        total_letters(final(words)@) + typed_count(old(words)@, key@, any_started(old(words)@))
            == total_letters(old(words)@),
        final(player).name@ == old(player).name@,
        final(player).shields == old(player).shields,
        final(player).level == old(player).level,
        final(player).is_alive == old(player).is_alive,
        forall|i: int|
            0 <= i < old(words)@.len() ==> (#[trigger] final(words)@[i].x == if key@.len()
                <= old(words)@[i].word@.len() && old(words)@[i].word@.take(key@.len() as int)
                == key@ && (old(words)@[i].started || !(exists|j: int|
                0 <= j < old(words)@.len() && old(words)@[j].started)) {
                old(words)@[i].x + 1
            } else {
                old(words)@[i].x as int
            }),
{
    let ghost ws = words@;
    let mut started_any = false;
    for i in 0..words.len()
        invariant
            words@ == ws,
            started_any == exists|j: int| 0 <= j < i && #[trigger] ws[j].started,
    {
        if words[i].started {
            started_any = true;
        }
    }
    assert(started_any == any_started(ws));
    let n = words.len();
    assert(ws.take(0) =~= Seq::<Word>::empty());
    for i in 0..n
        invariant
            n == ws.len(),
            words@.len() == n,
            started_any == any_started(ws),
            forall|j: int|
                0 <= j < n && types_into(#[trigger] ws[j], key@, started_any)
                    ==> first_byte_removable(ws[j].word@) && ws[j].x < i32::MAX,
            old(player).score + typed_count(ws, key@, started_any) <= i32::MAX,
            forall|j: int|
                0 <= j < i ==> if types_into(#[trigger] ws[j], key@, started_any) {
                    typed_word(ws[j], words@[j])
                } else {
                    same_word(ws[j], words@[j])
                },
            forall|j: int| i <= j < n ==> #[trigger] words@[j] == ws[j],
            player.score == old(player).score + typed_count(ws.take(i as int), key@, started_any),
            player.name@ == old(player).name@,
            player.shields == old(player).shields,
            player.level == old(player).level,
            player.is_alive == old(player).is_alive,
    {
        assert(ws.take(i + 1).drop_last() =~= ws.take(i as int));
        assert(ws.take(i + 1).last() == ws[i as int]);
        proof {
            lemma_typed_count_prefix(ws, key@, started_any, i + 1);
        }
        let hit = starts_with(words[i].word.as_str(), key.as_str());
        if hit && (words[i].started || !started_any) {
            let rest = without_first(&words[i].word);
            words[i].word = rest;
            words[i].x = words[i].x + 1;
            player.score = player.score + 1;
            words[i].started = true;
            words[i].hit = true;
        }
    }
    assert(ws.take(n as int) =~= ws);
    proof {
        lemma_typing_conserves_letters(ws, words@, key@, started_any);
        assert forall|i: int| 0 <= i < ws.len() implies (#[trigger] words@[i].x == if key@.len()
            <= ws[i].word@.len() && ws[i].word@.take(key@.len() as int) == key@ && (ws[i].started
            || !(exists|j: int| 0 <= j < ws.len() && ws[j].started)) {
            ws[i].x + 1
        } else {
            ws[i].x as int
        }) by {
            law_typing_pushes_back(ws[i], words@[i]);
            law_types_into(ws[i], key@, started_any);
            law_any_started(ws);
        }
    }
}

/// The words typed among the first `k` are no more than those typed among all.
pub proof fn lemma_typed_count_prefix(ws: Seq<Word>, key: Seq<char>, started_any: bool, k: int)
    requires
        0 <= k <= ws.len(),
    ensures
        typed_count(ws.take(k), key, started_any) <= typed_count(ws, key, started_any),
    decreases ws.len(),
{
    if k < ws.len() {
        lemma_typed_count_prefix(ws.drop_last(), key, started_any, k);
        assert(ws.drop_last().take(k) =~= ws.take(k));
    } else {
        assert(ws.take(k) =~= ws);
    }
}

/// The word reaches the shield: it stands left of the shield's column and
/// has letters left.
pub open spec fn hits_shield(w: Word) -> bool {
    w.x <= SHIELD_POSITION - 1 && w.word@.len() > 0
}

/// How many of the words reach the shield.
pub open spec fn shield_hit_count(ws: Seq<Word>) -> nat
    decreases ws.len(),
{
    if ws.len() == 0 {
        0
    } else {
        shield_hit_count(ws.drop_last()) + if hits_shield(ws.last()) {
            1nat
        } else {
            0nat
        }
    }
}

/// `w2` is `w` after hitting the shield: it loses its first letter and is
/// pushed back one column.
pub open spec fn shield_struck_word(w: Word, w2: Word) -> bool {
    &&& w2.word@ == w.word@.drop_first()
    &&& w2.original_word@ == w.original_word@
    &&& w2.x == w.x + 1
    &&& w2.y == w.y
    &&& w2.started == w.started
    &&& w2.enabled == w.enabled
    &&& w2.completed == w.completed
    &&& w2.hit == w.hit
}

proof fn lemma_shield_hit_count_prefix(ws: Seq<Word>, k: int)
    requires
        0 <= k <= ws.len(),
    ensures
        shield_hit_count(ws.take(k)) <= shield_hit_count(ws),
    decreases ws.len(),
{
    if k < ws.len() {
        lemma_shield_hit_count_prefix(ws.drop_last(), k);
        assert(ws.drop_last().take(k) =~= ws.take(k));
    } else {
        assert(ws.take(k) =~= ws);
    }
}

/// The shield takes the words that reach it: a player with no shields left
/// is no longer alive; each word that reaches the shield costs a shield,
/// loses its first letter and is pushed back one column. Returns how many
/// words hit the shield, which is how often the screen flashes.
pub fn shield_hit(words: &mut Vec<Word>, player: &mut Player) -> (hits: usize)
    requires
        forall|i: int|
            0 <= i < old(words)@.len() && hits_shield(#[trigger] old(words)@[i])
                ==> first_byte_removable(old(words)@[i].word@),
        old(player).shields - shield_hit_count(old(words)@) >= i32::MIN,
    ensures
        hits == shield_hit_count(old(words)@),
        final(words)@.len() == old(words)@.len(),
        forall|i: int|
            0 <= i < old(words)@.len() ==> if hits_shield(#[trigger] old(words)@[i]) {
                shield_struck_word(old(words)@[i], final(words)@[i])
            } else {
                same_word(old(words)@[i], final(words)@[i])
            },
        final(player).is_alive == (old(player).is_alive && old(player).shields > 0),
        final(player).shields == old(player).shields - shield_hit_count(old(words)@),
        total_letters(final(words)@) + shield_hit_count(old(words)@) == total_letters(
            old(words)@,
        ),
        final(player).name@ == old(player).name@,
        final(player).level == old(player).level,
        final(player).score == old(player).score,
        hits == old(words)@.filter(|w: Word| w.x < 15 && w.word@.len() > 0).len(),
        forall|i: int|
            0 <= i < old(words)@.len() ==> (#[trigger] final(words)@[i].x == if old(words)@[i].x < 15
                && old(words)@[i].word@.len() > 0 {
                old(words)@[i].x + 1
            } else {
                old(words)@[i].x as int
            }) && final(words)@[i].word@ == if old(words)@[i].x < 15 && old(words)@[i].word@.len()
                > 0 {
                old(words)@[i].word@.drop_first()
            } else {
                old(words)@[i].word@
            },
{
    if player.shields <= 0 {
        player.is_alive = false;
    }
    let ghost ws = words@;
    let ghost shields0 = player.shields;
    let n = words.len();
    let mut hits: usize = 0;
    assert(ws.take(0) =~= Seq::<Word>::empty());
    for i in 0..n
        invariant
            n == ws.len(),
            words@.len() == n,
            forall|j: int|
                0 <= j < n && hits_shield(#[trigger] ws[j]) ==> first_byte_removable(
                    ws[j].word@,
                ),
            shields0 == old(player).shields,
            shields0 - shield_hit_count(ws) >= i32::MIN,
            forall|j: int|
                0 <= j < i ==> if hits_shield(#[trigger] ws[j]) {
                    shield_struck_word(ws[j], words@[j])
                } else {
                    same_word(ws[j], words@[j])
                },
            forall|j: int| i <= j < n ==> #[trigger] words@[j] == ws[j],
            hits == shield_hit_count(ws.take(i as int)),
            player.shields == shields0 - hits,
            player.is_alive == (old(player).is_alive && old(player).shields > 0),
            player.name@ == old(player).name@,
            player.level == old(player).level,
            player.score == old(player).score,
    {
        assert(ws.take(i + 1).drop_last() =~= ws.take(i as int));
        assert(ws.take(i + 1).last() == ws[i as int]);
        proof {
            lemma_shield_hit_count_prefix(ws, i + 1);
        }
        if words[i].x <= SHIELD_POSITION - 1 && words[i].word.as_str().is_empty() == false {
            player.shields = player.shields - 1;
            let rest = without_first(&words[i].word);
            words[i].word = rest;
            words[i].x = words[i].x + 1;
            hits = hits + 1;
        }
    }
    assert(ws.take(n as int) =~= ws);
    proof {
        lemma_shield_conserves_letters(ws, words@);
        law_shield_hit_count(ws);
        assert forall|i: int| 0 <= i < ws.len() implies (#[trigger] words@[i].x == if ws[i].x < 15
            && ws[i].word@.len() > 0 {
            ws[i].x + 1
        } else {
            ws[i].x as int
        }) && words@[i].word@ == if ws[i].x < 15 && ws[i].word@.len() > 0 {
            ws[i].word@.drop_first()
        } else {
            ws[i].word@
        } by {
            law_hits_shield(ws[i], words@[i]);
        }
    }
    hits
}

/// `w2` is `w` one column further left.
pub open spec fn moved_word(w: Word, w2: Word) -> bool {
    &&& w2.word@ == w.word@
    &&& w2.original_word@ == w.original_word@
    &&& w2.x == w.x - 1
    &&& w2.y == w.y
    &&& w2.started == w.started
    &&& w2.enabled == w.enabled
    &&& w2.completed == w.completed
    &&& w2.hit == w.hit
}

/// Every word moves one column left, towards the shield.
pub fn move_words(words: &mut Vec<Word>)
    requires
        forall|i: int| 0 <= i < old(words)@.len() ==> #[trigger] old(words)@[i].x > i32::MIN,
    ensures
        final(words)@.len() == old(words)@.len(),
        forall|i: int|
            0 <= i < old(words)@.len() ==> moved_word(#[trigger] old(words)@[i], final(words)@[i]),
        forall|i: int| 0 <= i < old(words)@.len() ==> #[trigger] final(words)@[i].x == old(words)@[i].x - 1,
{
    let ghost ws = words@;
    let n = words.len();
    for i in 0..n
        invariant
            n == ws.len(),
            words@.len() == n,
            forall|j: int| 0 <= j < n ==> #[trigger] ws[j].x > i32::MIN,
            forall|j: int| 0 <= j < i ==> moved_word(#[trigger] ws[j], words@[j]),
            forall|j: int| i <= j < n ==> #[trigger] words@[j] == ws[j],
    {
        assert(words@[i as int] == ws[i as int]);
        words[i].x = words[i].x - 1;
    }
}

/// The speed of the game at the player's level.
pub open spec fn speed_at(level: i32) -> int {
    INITIAL_SPEED + ((level * 50 + 1) * 6)
}

/// The speed of the game: the initial speed, and `(level * 50 + 1) * 6` on top.
pub fn calculate_speed(player: &mut Player) -> (speed: i32)
    requires
        i32::MIN <= old(player).level * 50 + 1 <= i32::MAX,
        i32::MIN <= (old(player).level * 50 + 1) * 6 <= i32::MAX,
        i32::MIN <= speed_at(old(player).level) <= i32::MAX,
    ensures
        speed == speed_at(old(player).level),
        speed == 15000 + (old(player).level * 50 + 1) * 6,
        *final(player) == *old(player),
{
    INITIAL_SPEED + ((player.level * 50 + 1) * 6)
}

/// `w` is a word fresh from the dictionary: one of its words, at the right
/// edge of the field, on a row between the fifth and the fourth from the
/// bottom, enabled and untouched.
pub open spec fn fresh_word(w: Word, field: Field, dictionary: Seq<String>) -> bool {
    &&& exists|i: int| 0 <= i < dictionary.len() && #[trigger] dictionary[i]@ == w.word@
    &&& w.original_word@ == w.word@
    &&& w.x == field.width - 2
    &&& 5 <= w.y < field.height - 3
    &&& !w.started
    &&& w.enabled
    &&& !w.completed
    &&& !w.hit
}

/// A random row for a new word: from the fifth row down to the row above the
/// bottom three.
fn random_row(field: &Field) -> (y: i32)
    requires
        5 < field.height - 3,
    ensures
        5 <= y < field.height - 3,
{
    let span: i32 = field.height - 3 - 5;
    let r = random_below(span as usize);
    5 + r as i32
}

impl Word {
    /// A new word on the field: the text given, at the right edge, on a
    /// random row (see `fresh_word`).
    pub fn new(word: &String, field: &Field) -> (w: Self)
        requires
            field.width >= i32::MIN + 2,
            5 < field.height - 3,
        ensures
            w.word@ == word@,
            w.original_word@ == word@,
            w.x == field.width - 2,
            5 <= w.y < field.height - 3,
            !w.started,
            w.enabled,
            !w.completed,
            !w.hit,
    {
        Self {
            word: word.clone(),
            original_word: word.clone(),
            x: field.width - 2,
            y: random_row(field),
            started: false,
            enabled: true,
            completed: false,
            hit: false,
        }
    }
}

/// A random word from the dictionary, new on the field.
pub fn randomword(field: &Field, wordlist: &Vec<String>) -> (w: Word)
    requires
        wordlist@.len() > 0,
        field.width >= i32::MIN + 2,
        5 < field.height - 3,
    ensures
        fresh_word(w, *field, wordlist@),
{
    let i = random_below(wordlist.len());
    let w = Word::new(&wordlist[i], field);
    assert(wordlist@[i as int]@ == w.word@);
    w
}

/// `s` begins with the character `c`.
pub open spec fn starts_with_char(s: Seq<char>, c: char) -> bool {
    s.len() > 0 && s[0] == c
}

/// Some word, as it was drawn from the dictionary, begins with `c`.
pub open spec fn original_letter_taken(ws: Seq<Word>, c: char) -> bool {
    exists|i: int| 0 <= i < ws.len() && starts_with_char(#[trigger] ws[i].original_word@, c)
}

/// Some word's remaining text begins with `c`.
pub open spec fn letter_taken(ws: Seq<Word>, c: char) -> bool {
    exists|i: int| 0 <= i < ws.len() && starts_with_char(#[trigger] ws[i].word@, c)
}

/// Some word is on row `y`.
pub open spec fn row_taken(ws: Seq<Word>, y: i32) -> bool {
    exists|i: int| 0 <= i < ws.len() && #[trigger] ws[i].y == y
}

/// How many words the player's level allows on the field at once.
pub open spec fn word_limit(level: i32) -> int {
    level + 1 + level / 3
}

/// How far left the word's end lies: its column less its length in bytes
/// (cast to `i32`, as the game does).
pub open spec fn word_lead(w: Word) -> int {
    w.x - ((byte_len(w.word@) as i32) as int)
}

/// The leads of the words can be computed: each length fits a `usize` and
/// each difference an `i32`.
pub open spec fn leads_ok(ws: Seq<Word>) -> bool {
    forall|i: int|
        0 <= i < ws.len() ==> byte_len(#[trigger] ws[i].word@) <= usize::MAX && i32::MIN
            <= word_lead(ws[i]) <= i32::MAX
}

/// The greatest lead among the words (of which there is at least one).
pub open spec fn max_lead(ws: Seq<Word>) -> int
    decreases ws.len(),
{
    if ws.len() <= 1 {
        word_lead(ws[0])
    } else {
        let m = max_lead(ws.drop_last());
        let l = word_lead(ws.last());
        if l >= m {
            l
        } else {
            m
        }
    }
}

/// The candidate goes on the field: no word there begins with its first
/// letter, no word is on its row, and every word's end lies left of its
/// column less the gap.
pub open spec fn placeable(ws: Seq<Word>, w: Word, gap: i32) -> bool {
    &&& !letter_taken(ws, w.word@[0])
    &&& !row_taken(ws, w.y)
    &&& max_lead(ws) < w.x - gap
}

/// One try to put a new word on a field that holds words: the word goes on
/// the field when it is `placeable`. Returns whether a word on the field
/// begins with the new word's first letter, in which case the game tries
/// again with another word.
pub fn try_place_word(words: &mut Vec<Word>, new_word: Word, gap: i32) -> (conflict: bool)
    requires
        old(words)@.len() > 0,
        first_byte_removable(new_word.word@),
        leads_ok(old(words)@),
        i32::MIN <= new_word.x - gap <= i32::MAX,
    ensures
        conflict == letter_taken(old(words)@, new_word.word@[0]),
        final(words)@ == if placeable(old(words)@, new_word, gap) {
            old(words)@.push(new_word)
        } else {
            old(words)@
        },
{
    let first = chars_of(new_word.word.as_str());
    let c = first[0];
    let ghost old_words = words@;
    let n = words.len();
    let mut lead: i32 = 0;
    let mut collision = false;
    let mut conflict = false;
    for i in 0..n
        invariant
            n == old_words.len(),
            words@ == old_words,
            n > 0,
            c == new_word.word@[0],
            leads_ok(old_words),
            i > 0 ==> lead == max_lead(old_words.take(i as int)),
            collision == row_taken(old_words.take(i as int), new_word.y),
            conflict == letter_taken(old_words.take(i as int), c),
    {
        let ghost pre = old_words.take(i as int);
        let ghost post = old_words.take(i + 1);
        assert(post.drop_last() =~= pre);
        assert(post.last() == old_words[i as int]);
        let w = &words[i];
        assert(byte_len(w.word@) <= usize::MAX);
        let len: usize = w.word.as_str().len();
        let l: i32 = w.x - len as i32;
        if i == 0 || l >= lead {
            lead = l;
        }
        assert(lead == max_lead(post));
        if w.y == new_word.y {
            collision = true;
            assert(post[i as int].y == new_word.y);
        }
        let cs = chars_of(w.word.as_str());
        if cs.len() > 0 && cs[0] == c {
            conflict = true;
            assert(starts_with_char(post[i as int].word@, c));
        }
        proof {
            if collision != row_taken(post, new_word.y) {
                if collision {
                    let j = choose|j: int| 0 <= j < pre.len() && #[trigger] pre[j].y == new_word.y;
                    assert(post[j] == pre[j]);
                } else {
                    let j = choose|j: int| 0 <= j < post.len() && #[trigger] post[j].y == new_word.y;
                    assert(j < pre.len() ==> pre[j] == post[j]);
                }
            }
            if conflict != letter_taken(post, c) {
                if conflict {
                    let j = choose|j: int|
                        0 <= j < pre.len() && starts_with_char(#[trigger] pre[j].word@, c);
                    assert(post[j] == pre[j]);
                } else {
                    let j = choose|j: int|
                        0 <= j < post.len() && starts_with_char(#[trigger] post[j].word@, c);
                    assert(j < pre.len() ==> pre[j] == post[j]);
                }
            }
        }
    }
    assert(old_words.take(n as int) =~= old_words);
    let distance = lead < new_word.x - gap;
    if !conflict && !collision && distance {
        words.push(new_word);
    }
    conflict
}

/// The first step of adding a word, with the candidate drawn: onto an empty
/// field the word goes at once; below the level's limit of words, returns
/// whether a word, as drawn from the dictionary, begins with the candidate's first letter,
/// in which case the game keeps trying other words (`try_place_word`);
/// otherwise nothing happens.
pub fn begin_add_word(words: &mut Vec<Word>, player: &Player, new_word: Word) -> (retry: bool)
    requires
        old(words)@.len() >= 1 ==> player.level >= 0,
        1 <= old(words)@.len() < word_limit(player.level) ==> first_byte_removable(
            new_word.word@,
        ),
    ensures
        old(words)@.len() == 0 ==> final(words)@ == old(words)@.push(new_word) && !retry,
        old(words)@.len() > 0 ==> final(words)@ == old(words)@ && retry == (old(words)@.len()
            < word_limit(player.level) && original_letter_taken(old(words)@, new_word.word@[0])),
        old(words)@.len() > 0 ==> (retry ==> old(words)@.len() < player.level + 1 + player.level
            / 3),
        old(words)@.len() > 0 && old(words)@.len() < player.level + 1 + player.level / 3 && (exists|
            j: int,
        |
            0 <= j < old(words)@.len() && #[trigger] old(words)@[j].original_word@.len() > 0
                && old(words)@[j].original_word@[0] == new_word.word@[0]) ==> retry,
{
    if words.len() < 1 {
        words.push(new_word);
        false
    } else if words.len() < player.level as usize + 1 + (player.level as usize / 3) {
        let first = chars_of(new_word.word.as_str());
        let c = first[0];
        let mut conflict = false;
        let n = words.len();
        for i in 0..n
            invariant
                n == words@.len(),
                c == new_word.word@[0],
                conflict == exists|j: int|
                    0 <= j < i && starts_with_char(#[trigger] words@[j].original_word@, c),
        {
            let cs = chars_of(words[i].original_word.as_str());
            if cs.len() > 0 && cs[0] == c {
                conflict = true;
            }
        }
        conflict
    } else {
        false
    }
}

/// Adds a word to the field, as a tick of the game does: a random word from
/// the dictionary goes onto an empty field; on a field with fewer words than
/// the level allows, returns `true` when the drawn word's first letter is
/// taken, and the game then keeps calling `add_word_retry` until that
/// returns `false`.
pub fn add_word(field: &Field, words: &mut Vec<Word>, dictionary: &Vec<String>, player: &Player) -> (retry: bool)
    requires
        dictionary@.len() > 0,
        field.width >= i32::MIN + 2,
        5 < field.height - 3,
        old(words)@.len() >= 1 ==> player.level >= 0,
        1 <= old(words)@.len() < word_limit(player.level) ==> forall|i: int|
            0 <= i < dictionary@.len() ==> first_byte_removable(#[trigger] dictionary@[i]@),
    ensures
        old(words)@.len() == 0 ==> !retry && final(words)@.len() == 1 && fresh_word(
            final(words)@[0],
            *field,
            dictionary@,
        ),
        old(words)@.len() > 0 ==> final(words)@ == old(words)@,
        retry ==> 1 <= old(words)@.len() < word_limit(player.level) && exists|i: int|
            0 <= i < dictionary@.len() && #[trigger] original_letter_taken(
                old(words)@,
                dictionary@[i]@[0],
            ),
        exists|w: Word|
            #![trigger fresh_word(w, *field, dictionary@)]
            fresh_word(w, *field, dictionary@) && (old(words)@.len() == 0 ==> final(words)@
                == old(words)@.push(w)) && (old(words)@.len() > 0 ==> retry == (old(words)@.len()
                < word_limit(player.level) && original_letter_taken(old(words)@, w.word@[0]))),
{
    let new_word = randomword(field, dictionary);
    let ghost nw = new_word;
    let retry = begin_add_word(words, player, new_word);
    proof {
        assert(fresh_word(nw, *field, dictionary@));
        if retry {
            let i = choose|i: int| 0 <= i < dictionary@.len() && #[trigger] dictionary@[i]@ == nw.word@;
            assert(original_letter_taken(old(words)@, dictionary@[i]@[0]));
        }
    }
    retry
}

/// One more try to put a word on the field after its first letter was taken:
/// a random word from the dictionary, and a random gap of 15 to 29 columns,
/// go to `try_place_word`. Returns whether the letter was taken again.
pub fn add_word_retry(field: &Field, words: &mut Vec<Word>, dictionary: &Vec<String>) -> (retry: bool)
    requires
        dictionary@.len() > 0,
        forall|i: int| 0 <= i < dictionary@.len() ==> first_byte_removable(#[trigger] dictionary@[i]@),
        field.width >= i32::MIN + 31,
        5 < field.height - 3,
        old(words)@.len() > 0,
        leads_ok(old(words)@),
    ensures
        final(words)@ == old(words)@ || exists|w: Word|
            final(words)@ == old(words)@.push(w) && fresh_word(w, *field, dictionary@)
                && !letter_taken(old(words)@, w.word@[0]) && !row_taken(old(words)@, w.y),
        retry ==> final(words)@ == old(words)@ && exists|i: int|
            0 <= i < dictionary@.len() && #[trigger] letter_taken(old(words)@, dictionary@[i]@[0]),
        exists|w: Word, gap: i32|
            #![trigger fresh_word(w, *field, dictionary@), placeable(old(words)@, w, gap)]
            fresh_word(w, *field, dictionary@) && 15 <= gap < 30 && retry == letter_taken(
                old(words)@,
                w.word@[0],
            ) && final(words)@ == (if placeable(old(words)@, w, gap) {
                old(words)@.push(w)
            } else {
                old(words)@
            }),
{
    let new_word = randomword(field, dictionary);
    let ghost nw = new_word;
    let gap: i32 = 15 + random_below(15) as i32;
    let retry = try_place_word(words, new_word, gap);
    proof {
        assert(fresh_word(nw, *field, dictionary@) && placeable(old(words)@, nw, gap) == placeable(
            old(words)@,
            nw,
            gap,
        ));
        let i = choose|i: int| 0 <= i < dictionary@.len() && #[trigger] dictionary@[i]@ == nw.word@;
        assert(first_byte_removable(dictionary@[i]@));
        if retry {
            assert(letter_taken(old(words)@, dictionary@[i]@[0]));
        }
    }
    retry
}

/// A word that is done with: completed, and no letters left.
pub open spec fn finished(w: Word) -> bool {
    w.completed && w.word@.len() == 0
}

/// Whether a word stays on the field.
pub open spec fn stays() -> spec_fn(Word) -> bool {
    |w: Word| !finished(w)
}

/// Removes the finished words from the field, keeping the others in order
/// (the game's `retain`).
pub fn remove_finished_words(words: &mut Vec<Word>)
    ensures
        final(words)@ == old(words)@.filter(stays()),
{
    let ghost ws = words@;
    let mut i: usize = 0;
    let ghost mut k: int = 0;
    assert(ws.take(0) =~= Seq::<Word>::empty());
    assert(words@ =~= ws.take(0).filter(stays()) + ws.skip(0)) by {
        reveal_with_fuel(Seq::filter, 1);
    }
    while i < words.len()
        invariant
            0 <= k <= ws.len(),
            i == ws.take(k).filter(stays()).len(),
            words@ == ws.take(k).filter(stays()) + ws.skip(k),
        decreases ws.len() - k,
    {
        let ghost before = words@;
        let ghost f = ws.take(k).filter(stays());
        assert(words@[i as int] == ws[k]);
        assert(ws.take(k + 1).drop_last() =~= ws.take(k));
        assert(ws.take(k + 1).last() == ws[k]);
        assert(ws.take(k + 1).filter(stays()) == (if stays()(ws[k]) {
            f.push(ws[k])
        } else {
            f
        })) by {
            reveal_with_fuel(Seq::filter, 1);
        }
        if words[i].completed && words[i].word.as_str().is_empty() {
            words.remove(i);
            assert(words@ =~= f + ws.skip(k + 1));
        } else {
            i = i + 1;
            assert(words@ =~= f.push(ws[k]) + ws.skip(k + 1));
        }
        proof {
            k = k + 1;
        }
    }
    assert(k == ws.len()) by {
        if k < ws.len() {
            assert(words@.len() > i);
        }
    }
    assert(ws.take(k) =~= ws);
    assert(ws.skip(k) =~= Seq::<Word>::empty());
    assert(words@ =~= ws.filter(stays()));
}

/// The player climbs a level for each 50 points: with a positive score of at
/// least 50, the level becomes `score / 50 + 1`.
pub fn advance_level(player: &mut Player)
    ensures
        final(player).level == if old(player).score > 0 && old(player).score / 50 > 0 {
            old(player).score / 50 + 1
        } else {
            old(player).level as int
        },
        final(player).name@ == old(player).name@,
        final(player).shields == old(player).shields,
        final(player).score == old(player).score,
        final(player).is_alive == old(player).is_alive,
{
    if player.score > 0 && player.score / 50 > 0 {
        player.level = player.score / 50 + 1;
    }
}

/// `d` divides `n`.
pub open spec fn divides(d: int, n: int) -> bool {
    exists|k: int| n == #[trigger] (k * d)
}

/// The absolute value.
pub open spec fn abs(n: int) -> int {
    if n < 0 {
        -n
    } else {
        n
    }
}

/// `d` divides `n` exactly when `|d|` divides `|n|` with no remainder.
proof fn lemma_divides_abs(n: int, d: int)
    requires
        d != 0,
    ensures
        divides(d, n) <==> abs(n) % abs(d) == 0,
{
    if divides(d, n) {
        let k = choose|k: int| n == #[trigger] (k * d);
        assert(abs(n) == abs(k) * abs(d)) by (nonlinear_arith)
            requires
                n == k * d,
        ;
        vstd::arithmetic::div_mod::lemma_mod_multiples_basic(abs(k), abs(d));
    }
    if abs(n) % abs(d) == 0 {
        vstd::arithmetic::div_mod::lemma_fundamental_div_mod(abs(n), abs(d));
        let q = abs(n) / abs(d);
        let k = if (n < 0) != (d < 0) {
            -q
        } else {
            q
        };
        assert(n == k * d) by (nonlinear_arith)
            requires
                abs(n) == abs(d) * q,
                k == (if (n < 0) != (d < 0) {
                    -q
                } else {
                    q
                }),
                abs(n) == (if n < 0 {
                    -n
                } else {
                    n
                }),
                abs(d) == (if d < 0 {
                    -d
                } else {
                    d
                }),
        ;
        assert(divides(d, n));
    }
}

/// The words move on every tick whose number the period `5000 - speed`
/// divides.
pub fn is_move_tick(gametick: i32, speed: i32) -> (b: bool)
    requires
        i32::MIN <= 5000 - speed <= i32::MAX,
        5000 - speed != 0,
    ensures
        b == divides(5000 - speed, gametick as int),
{
    let period: i32 = 5000 - speed;
    let g: u64 = if gametick < 0 {
        (-(gametick as i64)) as u64
    } else {
        gametick as u64
    };
    let p: u64 = if period < 0 {
        (-(period as i64)) as u64
    } else {
        period as u64
    };
    proof {
        lemma_divides_abs(gametick as int, period as int);
    }
    g % p == 0
}

/// A key to type: one character that takes one byte.
pub open spec fn typing_key(key: Seq<char>) -> bool {
    key.len() == 1 && vstd::utf8::is_ascii_chars(key)
}

/// Handles a key from the keyboard: `"EXIT"` ends the game (the player is no
/// longer alive); a typing key goes to `update_words`. Returns whether the
/// key was typed, after which the game redraws the words and the border.
pub fn handle_key(key: &String, words: &mut Vec<Word>, player: &mut Player) -> (typed: bool)
    requires
        typing_key(key@) ==> {
            &&& forall|i: int|
                0 <= i < old(words)@.len() && types_into(
                    #[trigger] old(words)@[i],
                    key@,
                    any_started(old(words)@),
                ) ==> first_byte_removable(old(words)@[i].word@) && old(words)@[i].x < i32::MAX
            &&& old(player).score + typed_count(old(words)@, key@, any_started(old(words)@))
                <= i32::MAX
        },
    ensures
        typed == typing_key(key@),
        final(player).is_alive == (old(player).is_alive && key@ != "EXIT"@),
        final(player).name@ == old(player).name@,
        final(player).shields == old(player).shields,
        final(player).level == old(player).level,
        typed ==> {
            &&& final(words)@.len() == old(words)@.len()
            &&& forall|i: int|
                0 <= i < old(words)@.len() ==> if types_into(
                    #[trigger] old(words)@[i],
                    key@,
                    any_started(old(words)@),
                ) {
                    typed_word(old(words)@[i], final(words)@[i])
                } else {
                    same_word(old(words)@[i], final(words)@[i])
                }
            &&& final(player).score == old(player).score + typed_count(
                old(words)@,
                key@,
                any_started(old(words)@),
            )
            &&& total_letters(final(words)@) + typed_count(
                old(words)@,
                key@,
                any_started(old(words)@),
            ) == total_letters(old(words)@)
        },
        !typed ==> final(words)@ == old(words)@ && final(player).score == old(player).score,
{
    let exit = "EXIT".to_string();
    if *key == exit {
        player.is_alive = false;
    }
    let cs = chars_of(key.as_str());
    if key.is_ascii() && cs.len() == 1 {
        update_words(key.clone(), words, player);
        true
    } else {
        false
    }
}

/// The letters left on the field: the lengths of the words' texts, summed.
pub open spec fn total_letters(ws: Seq<Word>) -> int
    decreases ws.len(),
{
    if ws.len() == 0 {
        0
    } else {
        total_letters(ws.drop_last()) + ws.last().word@.len()
    }
}

/// A point for every letter: after `update_words`, the letters left on the
/// field and the points gained add up to the letters there were.
pub proof fn lemma_typing_conserves_letters(
    before: Seq<Word>,
    after: Seq<Word>,
    key: Seq<char>,
    started_any: bool,
)
    requires
        after.len() == before.len(),
        forall|i: int|
            0 <= i < before.len() ==> if types_into(#[trigger] before[i], key, started_any) {
                typed_word(before[i], after[i]) && before[i].word@.len() > 0
            } else {
                same_word(before[i], after[i])
            },
    ensures
        total_letters(after) + typed_count(before, key, started_any) == total_letters(before),
    decreases before.len(),
{
    if before.len() > 0 {
        let b0 = before.drop_last();
        let a0 = after.drop_last();
        assert forall|i: int|
            0 <= i < b0.len() implies if types_into(#[trigger] b0[i], key, started_any) {
            typed_word(b0[i], a0[i]) && b0[i].word@.len() > 0
        } else {
            same_word(b0[i], a0[i])
        } by {
            assert(b0[i] == before[i] && a0[i] == after[i]);
        }
        lemma_typing_conserves_letters(b0, a0, key, started_any);
        let n = before.len() - 1;
        assert(before[n] == before.last() && after[n] == after.last());
    }
}

/// A shield for every letter: after `shield_hit`, the letters left on the
/// field and the shields lost add up to the letters there were.
pub proof fn lemma_shield_conserves_letters(before: Seq<Word>, after: Seq<Word>)
    requires
        after.len() == before.len(),
        forall|i: int|
            0 <= i < before.len() ==> if hits_shield(#[trigger] before[i]) {
                shield_struck_word(before[i], after[i])
            } else {
                same_word(before[i], after[i])
            },
    ensures
        total_letters(after) + shield_hit_count(before) == total_letters(before),
    decreases before.len(),
{
    if before.len() > 0 {
        let b0 = before.drop_last();
        let a0 = after.drop_last();
        assert forall|i: int| 0 <= i < b0.len() implies if hits_shield(#[trigger] b0[i]) {
            shield_struck_word(b0[i], a0[i])
        } else {
            same_word(b0[i], a0[i])
        } by {
            assert(b0[i] == before[i] && a0[i] == after[i]);
        }
        lemma_shield_conserves_letters(b0, a0);
        let n = before.len() - 1;
        assert(before[n] == before.last() && after[n] == after.last());
    }
}

/// Once a word is started, it must be typed to its end: while some word is
/// started, a key types into started words only, and leaves every other
/// word as it is.
pub proof fn lemma_started_word_first(ws: Seq<Word>, key: Seq<char>, i: int)
    requires
        0 <= i < ws.len(),
        any_started(ws),
        !ws[i].started,
    ensures
        !types_into(ws[i], key, any_started(ws)),
{
}

/// No two words on the field begin with the same letter.
pub open spec fn distinct_first_letters(ws: Seq<Word>) -> bool {
    forall|i: int, j: int|
        0 <= i < ws.len() && 0 <= j < ws.len() && i != j && ws[i].word@.len() > 0 && ws[j].word@.len()
            > 0 ==> #[trigger] ws[i].word@[0] != #[trigger] ws[j].word@[0]
}

/// Two words that begin with the same letter do not come onto the field
/// together: a word placed by `try_place_word` keeps the first letters of the
/// words on the field distinct, when they were.
pub proof fn lemma_placing_keeps_letters_distinct(ws: Seq<Word>, w: Word, gap: i32)
    requires
        distinct_first_letters(ws),
        w.word@.len() > 0,
        placeable(ws, w, gap),
    ensures
        distinct_first_letters(ws.push(w)),
{
    let ns = ws.push(w);
    assert forall|i: int, j: int|
        0 <= i < ns.len() && 0 <= j < ns.len() && i != j && ns[i].word@.len() > 0 && ns[j].word@.len()
            > 0 implies #[trigger] ns[i].word@[0] != #[trigger] ns[j].word@[0] by {
        if i == ws.len() {
            assert(ns[j] == ws[j]);
            assert(!starts_with_char(ws[j].word@, w.word@[0]));
        } else if j == ws.len() {
            assert(ns[i] == ws[i]);
            assert(!starts_with_char(ws[i].word@, w.word@[0]));
        } else {
            assert(ns[i] == ws[i] && ns[j] == ws[j]);
        }
    }
}

/// A key to press, as the keyboard gives it.
pub enum KeyInput {
    /// A character key.
    Char(char),
    /// The escape key.
    Esc,
    /// Any other key.
    Other,
}

/// The text the game makes of a key: the character of a character key,
/// `"EXIT"` for escape, nothing for any other key.
pub open spec fn key_text_spec(k: KeyInput) -> Seq<char> {
    match k {
        KeyInput::Char(c) => seq![c],
        KeyInput::Esc => "EXIT"@,
        KeyInput::Other => Seq::empty(),
    }
}

/// The text the game makes of a key (see `key_text_spec`).
pub fn key_text(k: KeyInput) -> (t: String)
    ensures
        t@ == key_text_spec(k),
{
    match k {
        KeyInput::Char(c) => {
            let mut t = String::new();
            crate::text::push_char(&mut t, c);
            assert(t@ =~= seq![c]);
            t
        },
        KeyInput::Esc => "EXIT".to_string(),
        KeyInput::Other => String::new(),
    }
}

/// Whether the text begins with a one-byte character.
fn first_byte_removable_exec(s: &String) -> (b: bool)
    ensures
        b == first_byte_removable(s@),
{
    let cs = chars_of(s.as_str());
    cs.len() > 0 && (cs[0] as u32) < 128
}

/// Whether some word is started.
fn any_started_exec(words: &Vec<Word>) -> (b: bool)
    ensures
        b == any_started(words@),
{
    let mut b = false;
    for i in 0..words.len()
        invariant
            b == exists|j: int| 0 <= j < i && #[trigger] words@[j].started,
    {
        if words[i].started {
            b = true;
        }
    }
    b
}

/// Whether `key` can be typed into the words without a fault: each word it
/// types into has a one-byte first letter and room to move right, and the
/// score has room for the points.
pub fn can_update_words(key: &String, words: &Vec<Word>, player: &Player) -> (ok: bool)
    ensures
        ok == ((forall|i: int|
            0 <= i < words@.len() && types_into(#[trigger] words@[i], key@, any_started(words@))
                ==> first_byte_removable(words@[i].word@) && words@[i].x < i32::MAX) && player.score
            + typed_count(words@, key@, any_started(words@)) <= i32::MAX),
{
    let started_any = any_started_exec(words);
    let ghost ws = words@;
    let mut count: i64 = 0;
    let room: i64 = i32::MAX as i64 - player.score as i64;
    assert(ws.take(0) =~= Seq::<Word>::empty());
    for i in 0..words.len()
        invariant
            ws == words@,
            started_any == any_started(ws),
            room == i32::MAX - player.score,
            forall|j: int|
                0 <= j < i && types_into(#[trigger] ws[j], key@, started_any)
                    ==> first_byte_removable(ws[j].word@) && ws[j].x < i32::MAX,
            count == typed_count(ws.take(i as int), key@, started_any),
            count <= room,
    {
        assert(ws.take(i + 1).drop_last() =~= ws.take(i as int));
        assert(ws.take(i + 1).last() == ws[i as int]);
        proof {
            lemma_typed_count_prefix(ws, key@, started_any, i + 1);
        }
        let w = &words[i];
        if starts_with(w.word.as_str(), key.as_str()) && (w.started || !started_any) {
            if !first_byte_removable_exec(&w.word) || w.x == i32::MAX {
                return false;
            }
            if count == room {
                return false;
            }
            count = count + 1;
        }
    }
    assert(ws.take(words@.len() as int) =~= ws);
    true
}

/// Whether `handle_key` can take the key without a fault.
pub fn can_handle_key(key: &String, words: &Vec<Word>, player: &Player) -> (ok: bool)
    ensures
        ok == (typing_key(key@) ==> ((forall|i: int|
            0 <= i < words@.len() && types_into(#[trigger] words@[i], key@, any_started(words@))
                ==> first_byte_removable(words@[i].word@) && words@[i].x < i32::MAX) && player.score
            + typed_count(words@, key@, any_started(words@)) <= i32::MAX)),
{
    let cs = chars_of(key.as_str());
    if key.is_ascii() && cs.len() == 1 {
        can_update_words(key, words, player)
    } else {
        true
    }
}

/// Whether the shield can take the words without a fault: each word that
/// reaches it has a one-byte first letter, and the shields do not fall
/// below `i32::MIN`.
pub fn can_shield_hit(words: &Vec<Word>, player: &Player) -> (ok: bool)
    ensures
        ok == ((forall|i: int|
            0 <= i < words@.len() && hits_shield(#[trigger] words@[i]) ==> first_byte_removable(
                words@[i].word@,
            )) && player.shields - shield_hit_count(words@) >= i32::MIN),
{
    let ghost ws = words@;
    let mut count: i64 = 0;
    let room: i64 = player.shields as i64 - i32::MIN as i64;
    assert(ws.take(0) =~= Seq::<Word>::empty());
    for i in 0..words.len()
        invariant
            ws == words@,
            room == player.shields - i32::MIN,
            forall|j: int|
                0 <= j < i && hits_shield(#[trigger] ws[j]) ==> first_byte_removable(ws[j].word@),
            count == shield_hit_count(ws.take(i as int)),
            count <= room,
    {
        assert(ws.take(i + 1).drop_last() =~= ws.take(i as int));
        assert(ws.take(i + 1).last() == ws[i as int]);
        proof {
            lemma_shield_hit_count_prefix(ws, i + 1);
        }
        let w = &words[i];
        if w.x <= SHIELD_POSITION - 1 && !w.word.as_str().is_empty() {
            if !first_byte_removable_exec(&w.word) {
                return false;
            }
            if count == room {
                return false;
            }
            count = count + 1;
        }
    }
    assert(ws.take(words@.len() as int) =~= ws);
    true
}

/// Whether every word can move one column left.
pub fn can_move_words(words: &Vec<Word>) -> (ok: bool)
    ensures
        ok == forall|i: int| 0 <= i < words@.len() ==> #[trigger] words@[i].x > i32::MIN,
{
    for i in 0..words.len()
        invariant
            forall|j: int| 0 <= j < i ==> #[trigger] words@[j].x > i32::MIN,
    {
        if words[i].x == i32::MIN {
            return false;
        }
    }
    true
}

/// Whether every word in the dictionary begins with a one-byte letter.
pub fn dictionary_letters_ok(dictionary: &Vec<String>) -> (ok: bool)
    ensures
        ok == forall|i: int|
            0 <= i < dictionary@.len() ==> first_byte_removable(#[trigger] dictionary@[i]@),
{
    for i in 0..dictionary.len()
        invariant
            forall|j: int| 0 <= j < i ==> first_byte_removable(#[trigger] dictionary@[j]@),
    {
        if !first_byte_removable_exec(&dictionary[i]) {
            return false;
        }
    }
    true
}

/// Whether the leads of the words can be computed (see `leads_ok`).
pub fn leads_ok_exec(words: &Vec<Word>) -> (ok: bool)
    ensures
        ok == leads_ok(words@),
{
    for i in 0..words.len()
        invariant
            forall|j: int|
                0 <= j < i ==> byte_len(#[trigger] words@[j].word@) <= usize::MAX && i32::MIN
                    <= word_lead(words@[j]) <= i32::MAX,
    {
        let w = &words[i];
        match crate::text::byte_len_within(w.word.as_str(), usize::MAX) {
            Some(len) => {
                let l: i64 = w.x as i64 - (len as i32) as i64;
                if l < i32::MIN as i64 || l > i32::MAX as i64 {
                    return false;
                }
            },
            None => {
                return false;
            },
        }
    }
    true
}

/// Whether `add_word` can run without a fault.
pub fn can_add_word(field: &Field, words: &Vec<Word>, dictionary: &Vec<String>, player: &Player) -> (ok: bool)
    ensures
        ok == (dictionary@.len() > 0 && field.width >= i32::MIN + 2 && 5 < field.height - 3
            && (words@.len() >= 1 ==> player.level >= 0) && (1 <= words@.len() < word_limit(player.level) ==> forall|i: int|
            0 <= i < dictionary@.len() ==> first_byte_removable(#[trigger] dictionary@[i]@))),
{
    if dictionary.len() == 0 || field.width < i32::MIN + 2 || field.height <= 8 || (words.len()
        >= 1 && player.level < 0) {
        return false;
    }
    if words.len() >= 1 && words.len() < player.level as usize + 1 + (player.level as usize / 3) {
        dictionary_letters_ok(dictionary)
    } else {
        true
    }
}

/// Whether `add_word_retry` can run without a fault.
pub fn can_retry_add_word(field: &Field, words: &Vec<Word>, dictionary: &Vec<String>) -> (ok: bool)
    ensures
        ok == (dictionary@.len() > 0 && (forall|i: int|
            0 <= i < dictionary@.len() ==> first_byte_removable(#[trigger] dictionary@[i]@))
            && field.width >= i32::MIN + 31 && 5 < field.height - 3 && words@.len() > 0 && leads_ok(
            words@,
        )),
{
    dictionary.len() > 0 && dictionary_letters_ok(dictionary) && field.width >= i32::MIN + 31
        && field.height > 8 && words.len() > 0 && leads_ok_exec(words)
}

/// Whether the speed at the player's level can be computed in `i32`.
pub fn can_calculate_speed(player: &Player) -> (ok: bool)
    ensures
        ok == (i32::MIN <= player.level * 50 + 1 <= i32::MAX && i32::MIN <= (player.level * 50
            + 1) * 6 <= i32::MAX && i32::MIN <= speed_at(player.level) <= i32::MAX),
{
    let a: i64 = player.level as i64 * 50 + 1;
    if a < i32::MIN as i64 || a > i32::MAX as i64 {
        return false;
    }
    let b: i64 = a * 6;
    if b < i32::MIN as i64 || b > i32::MAX as i64 {
        return false;
    }
    let c: i64 = INITIAL_SPEED as i64 + b;
    c >= i32::MIN as i64 && c <= i32::MAX as i64
}

/// Typing a letter off a word pushes it back one column, started or not: it
/// loses its first character, moves right by one, and is then started and hit.
pub proof fn law_typing_pushes_back(w: Word, w2: Word)
    ensures
        typed_word(w, w2) ==> w2.x == w.x + 1 && w2.word@ == w.word@.drop_first() && w2.started
            && w2.hit && w2.y == w.y,
        same_word(w, w2) ==> w2.x == w.x && w2.word@ == w.word@,
{
}

/// A key types into a word exactly when the word begins with the key and is
/// the started word, or no word is started.
pub proof fn law_types_into(w: Word, key: Seq<char>, started_any: bool)
    ensures
        types_into(w, key, started_any) == (key.len() <= w.word@.len() && w.word@.take(
            key.len() as int,
        ) == key && (w.started || !started_any)),
{
}

/// Some word is started exactly when one of them has its `started` flag.
pub proof fn law_any_started(ws: Seq<Word>)
    ensures
        any_started(ws) == exists|j: int| 0 <= j < ws.len() && ws[j].started,
{
}

/// The field takes a word more for each level, and a third more for each
/// three levels: the limit is `level + 1 + level / 3`, and it grows with the
/// level.
pub proof fn law_word_limit(level: i32, higher: i32)
    requires
        0 <= level < higher,
    ensures
        word_limit(level) == level + 1 + level / 3,
        word_limit(level) < word_limit(higher),
{
}

/// A word hits the shield exactly when it stands left of column 15 and has
/// letters left, whatever its flags; a struck word loses its first letter and
/// is pushed back one column.
pub proof fn law_hits_shield(w: Word, w2: Word)
    ensures
        hits_shield(w) == (w.x < 15 && w.word@.len() > 0),
        shield_struck_word(w, w2) ==> w2.x == w.x + 1 && w2.word@ == w.word@.drop_first()
            && w2.y == w.y && w2.started == w.started,
{
}

/// As many shields are lost as there are words left of column 15 with letters
/// left.
pub proof fn law_shield_hit_count(ws: Seq<Word>)
    ensures
        shield_hit_count(ws) == ws.filter(|w: Word| w.x < 15 && w.word@.len() > 0).len(),
    decreases ws.len(),
{
    reveal_with_fuel(Seq::filter, 1);
    if ws.len() > 0 {
        law_shield_hit_count(ws.drop_last());
        law_hits_shield(ws.last(), ws.last());
    }
}

/// A move takes every word one column left, started or not.
pub proof fn law_move_left(w: Word, w2: Word)
    ensures
        moved_word(w, w2) ==> w2.x == w.x - 1 && w2.word@ == w.word@,
{
}

/// The speed is `15000 + (level * 50 + 1) * 6`, and each level is faster than
/// the one before.
pub proof fn law_speed(level: i32, higher: i32)
    requires
        level < higher,
    ensures
        speed_at(level) == 15000 + (level * 50 + 1) * 6,
        speed_at(level) < speed_at(higher),
{
}

} // verus!
