//! A chain of connected stones of one colour together with its liberties.
use vstd::prelude::*;

use super::Color;
use super::Coord;
use crate::text::decimal;
use crate::text::pad_right;
use crate::text::push_char;
use crate::text::push_decimal;
use crate::text::push_decimal_padded;

verus! {

/// A chain: its colour, its stones, its identifier on the board and its
/// liberties, each liberty listed once.
pub struct Chain {
    color: Color,
    coords: Vec<Coord>,
    id: usize,
    libs: Vec<Coord>,
}

/// The abstract content of a chain.
pub ghost struct ChainView {
    pub color: Color,
    pub coords: Seq<Coord>,
    pub id: int,
    pub libs: Seq<Coord>,
}

/// Whether no element occurs twice.
pub open spec fn no_duplicates(s: Seq<Coord>) -> bool {
    forall|i: int, j: int| 0 <= i < j < s.len() ==> s[i] != s[j]
}

/// The elements of `s` in order of first occurrence, each once.
pub open spec fn dedup(s: Seq<Coord>) -> Seq<Coord>
    decreases s.len(),
{
    if s.len() == 0 {
        Seq::empty()
    } else {
        let rest = dedup(s.drop_last());
        if rest.contains(s.last()) {
            rest
        } else {
            rest.push(s.last())
        }
    }
}

/// `s` without the element `c`.
pub open spec fn without(s: Seq<Coord>, c: Coord) -> Seq<Coord>
    decreases s.len(),
{
    if s.len() == 0 {
        Seq::empty()
    } else {
        let rest = without(s.drop_last(), c);
        if s.last() == c {
            rest
        } else {
            rest.push(s.last())
        }
    }
}

/// The name of a colour.
pub open spec fn color_name(c: Color) -> Seq<char> {
    match c {
        Color::Black => seq!['B', 'l', 'a', 'c', 'k'],
        Color::White => seq!['W', 'h', 'i', 't', 'e'],
        Color::Empty => seq!['E', 'm', 'p', 't', 'y'],
    }
}

/// A point written as `"(col,row)"`, quotes included.
pub open spec fn quoted_coord(c: Coord) -> Seq<char> {
    seq!['"', '('] + decimal(c.col as nat) + seq![','] + decimal(c.row as nat) + seq![')', '"']
}

/// Quoted points separated by `, `.
pub open spec fn quoted_list(s: Seq<Coord>) -> Seq<char>
    decreases s.len(),
{
    if s.len() == 0 {
        Seq::empty()
    } else if s.len() == 1 {
        quoted_coord(s[0])
    } else {
        quoted_list(s.drop_last()) + seq![',', ' '] + quoted_coord(s.last())
    }
}

/// The text that `Chain::show` gives.
pub open spec fn chain_text(v: ChainView) -> Seq<char> {
    pad_right(decimal(v.id as nat), 3) + seq!['|', ' '] + color_name(v.color) + seq![
        ',',
        ' ',
        'l',
        'i',
        'b',
        's',
        ':',
        ' ',
        'H',
        'a',
        's',
        'h',
        'S',
        'e',
        't',
        ' ',
        '{',
    ] + quoted_list(v.libs) + seq!['}', ',', ' ', 's', 't', 'o', 'n', 'e', 's', ':', ' ', '['] + quoted_list(
        v.coords,
    ) + seq![']']
}

/// Appends the name of a colour.
pub fn push_color_name(s: &mut String, c: Color)
    ensures
        final(s)@ == old(s)@ + color_name(c),
{
    let ghost before = s@;
    match c {
        Color::Black => {
            push_char(s, 'B');
            push_char(s, 'l');
            push_char(s, 'a');
            push_char(s, 'c');
            push_char(s, 'k');
        },
        Color::White => {
            push_char(s, 'W');
            push_char(s, 'h');
            push_char(s, 'i');
            push_char(s, 't');
            push_char(s, 'e');
        },
        Color::Empty => {
            push_char(s, 'E');
            push_char(s, 'm');
            push_char(s, 'p');
            push_char(s, 't');
            push_char(s, 'y');
        },
    }
    assert(s@ =~= before + color_name(c));
}

/// Appends quoted points separated by `, `.
fn push_quoted_list(s: &mut String, v: &Vec<Coord>)
    ensures
        final(s)@ == old(s)@ + quoted_list(v@),
{
    let ghost before = s@;
    let mut i: usize = 0;
    while i < v.len()
        invariant
            i <= v.len(),
            s@ == before + quoted_list(v@.subrange(0, i as int)),
        decreases v.len() - i,
    {
        let ghost mid = s@;
        if i > 0 {
            push_char(s, ',');
            push_char(s, ' ');
        }
        let c = v[i];
        push_char(s, '"');
        push_char(s, '(');
        push_decimal(s, c.col as u128);
        push_char(s, ',');
        push_decimal(s, c.row as u128);
        push_char(s, ')');
        push_char(s, '"');
        proof {
            let pre = v@.subrange(0, i as int);
            let post = v@.subrange(0, i + 1);
            assert(post.drop_last() =~= pre);
            assert(post.last() == c);
            if i == 0 {
                assert(quoted_list(post) == quoted_coord(c));
                assert(s@ =~= before + quoted_list(post));
            } else {
                assert(quoted_list(post) == quoted_list(pre) + seq![',', ' '] + quoted_coord(c));
                assert(s@ =~= before + quoted_list(post));
            }
        }
        i = i + 1;
    }
    assert(v@.subrange(0, v.len() as int) =~= v@);
}

impl View for Chain {
    type V = ChainView;

    closed spec fn view(&self) -> ChainView {
        ChainView { color: self.color, coords: self.coords@, id: self.id as int, libs: self.libs@ }
    }
}

impl Chain {
    /// A chain of one stone with the given liberties, each kept once.
    pub fn new(id: usize, color: Color, c: Coord, libs: Vec<Coord>) -> (res: Chain)
        ensures
            res@ == (ChainView { color, coords: seq![c], id: id as int, libs: dedup(libs@) }),
    {
        let mut kept: Vec<Coord> = Vec::new();
        let mut i: usize = 0;
        while i < libs.len()
            invariant
                i <= libs.len(),
                kept@ == dedup(libs@.subrange(0, i as int)),
            decreases libs.len() - i,
        {
            let l = libs[i];
            assert(libs@.subrange(0, i + 1).drop_last() =~= libs@.subrange(0, i as int));
            if !contains_coord(&kept, l) {
                kept.push(l);
            }
            i = i + 1;
        }
        assert(libs@.subrange(0, libs.len() as int) =~= libs@);
        let coords = vec![c];
        assert(coords@ =~= seq![c]);
        Chain { color, coords, id, libs: kept }
    }

    /// A chain with the given stones and liberties.
    pub(crate) fn from_parts(id: usize, color: Color, coords: Vec<Coord>, libs: Vec<Coord>) -> (res: Chain)
        ensures
            res@ == (ChainView { color, coords: coords@, id: id as int, libs: libs@ }),
    {
        Chain { color, coords, id, libs }
    }

    pub fn color(&self) -> (res: Color)
        ensures
            res == self@.color,
    {
        self.color
    }

    pub fn coords(&self) -> (res: &Vec<Coord>)
        ensures
            res@ == self@.coords,
    {
        &self.coords
    }

    pub fn liberties(&self) -> (res: &Vec<Coord>)
        ensures
            res@ == self@.libs,
    {
        &self.libs
    }

    pub fn id(&self) -> (res: usize)
        ensures
            res == self@.id,
    {
        self.id
    }

    pub fn set_id(&mut self, id: usize)
        ensures
            final(self)@ == (ChainView { id: id as int, ..old(self)@ }),
    {
        self.id = id;
    }

    /// Adds a liberty unless the chain already has it.
    pub fn add_liberty(&mut self, coord: Coord)
        ensures
            final(self)@ == (ChainView {
                libs: if old(self)@.libs.contains(coord) {
                    old(self)@.libs
                } else {
                    old(self)@.libs.push(coord)
                },
                ..old(self)@
            }),
    {
        if !contains_coord(&self.libs, coord) {
            self.libs.push(coord);
        }
    }

    /// Removes a liberty.
    pub fn remove_liberty(&mut self, coord: Coord)
        ensures
            final(self)@ == (ChainView { libs: without(old(self)@.libs, coord), ..old(self)@ }),
    {
        let mut kept: Vec<Coord> = Vec::new();
        let mut i: usize = 0;
        while i < self.libs.len()
            invariant
                i <= self.libs.len(),
                kept@ == without(self.libs@.subrange(0, i as int), coord),
            decreases self.libs.len() - i,
        {
            let l = self.libs[i];
            assert(self.libs@.subrange(0, i + 1).drop_last() =~= self.libs@.subrange(0, i as int));
            if l != coord {
                kept.push(l);
            }
            i = i + 1;
        }
        assert(self.libs@.subrange(0, self.libs.len() as int) =~= self.libs@);
        self.libs = kept;
    }

    /// Adds a stone.
    pub fn add_coord(&mut self, coord: Coord)
        ensures
            final(self)@ == (ChainView { coords: old(self)@.coords.push(coord), ..old(self)@ }),
    {
        self.coords.push(coord);
    }

    /// A chain without liberties is captured.
    pub fn is_captured(&self) -> (res: bool)
        ensures
            res == (self@.libs.len() == 0),
    {
        self.libs.len() == 0
    }

    /// The chain as text: identifier, colour, liberties and stones.
    pub fn show(&self) -> (res: String)
        ensures
            res@ == chain_text(self@),
    {
        let mut s = String::new();
        push_decimal_padded(&mut s, self.id as u128, 3);
        push_char(&mut s, '|');
        push_char(&mut s, ' ');
        push_color_name(&mut s, self.color);
        let ghost a = s@;
        proof {
            reveal_strlit(", libs: HashSet {");
            reveal_strlit("}, stones: [");
        }
        s.append(", libs: HashSet {");
        push_quoted_list(&mut s, &self.libs);
        s.append("}, stones: [");
        push_quoted_list(&mut s, &self.coords);
        push_char(&mut s, ']');
        assert(s@ =~= chain_text(self@));
        s
    }
}

/// Whether a list holds a point.
pub fn contains_coord(v: &Vec<Coord>, c: Coord) -> (res: bool)
    ensures
        res == v@.contains(c),
{
    let mut i: usize = 0;
    while i < v.len()
        invariant
            i <= v.len(),
            forall|k: int| 0 <= k < i ==> v@[k] != c,
        decreases v.len() - i,
    {
        if v[i] == c {
            return true;
        }
        i = i + 1;
    }
    false
}

} // verus!
