//! A plain record of a chain: its identifier, colour, liberty count and the
//! stones added to it, in the order they were added.
use vstd::prelude::*;

use super::chain::color_name;
use super::chain::push_color_name;
use super::Color;
use super::Coord;
use crate::text::decimal;
use crate::text::push_char;
use crate::text::push_decimal;

verus! {

/// A chain of stones as a list of points.
#[derive(Clone, Debug, PartialEq, Eq)]
pub struct Chain {
    pub id: usize,
    pub color: Color,
    pub libs: usize,
    coords: Vec<Coord>,
}

/// The stones of a chain written as `col,row|` each.
pub open spec fn stones_text(s: Seq<Coord>) -> Seq<char>
    decreases s.len(),
{
    if s.len() == 0 {
        Seq::empty()
    } else {
        stones_text(s.drop_last()) + decimal(s.last().col as nat) + seq![','] + decimal(
            s.last().row as nat,
        ) + seq!['|']
    }
}

/// The abstract content of a chain record.
pub ghost struct StoneChainView {
    pub id: usize,
    pub color: Color,
    pub libs: usize,
    pub stones: Seq<Coord>,
}

impl View for Chain {
    type V = StoneChainView;

    closed spec fn view(&self) -> StoneChainView {
        StoneChainView { id: self.id, color: self.color, libs: self.libs, stones: self.coords@ }
    }
}

impl Chain {

    /// An empty chain with one liberty.
    pub fn new(id: usize, color: Color) -> (res: Chain)
        ensures
            res@.id == id,
            res@.color == color,
            res@.libs == 1,
            res@.stones == Seq::<Coord>::empty(),
    {
        Chain { coords: Vec::new(), color, id, libs: 1 }
    }

    pub fn add_stone(&mut self, coord: Coord)
        ensures
            final(self)@.id == old(self)@.id,
            final(self)@.color == old(self)@.color,
            final(self)@.libs == old(self)@.libs,
            final(self)@.stones == old(self)@.stones.push(coord),
    {
        self.coords.push(coord);
    }

    /// Appends the stones of `c`.
    pub fn merge(&mut self, c: &Chain)
        ensures
            final(self)@.id == old(self)@.id,
            final(self)@.color == old(self)@.color,
            final(self)@.libs == old(self)@.libs,
            final(self)@.stones == old(self)@.stones + c@.stones,
    {
        let ghost before = self.coords@;
        let mut i: usize = 0;
        while i < c.coords.len()
            invariant
                i <= c.coords.len(),
                self.id == old(self)@.id,
                self.color == old(self)@.color,
                self.libs == old(self)@.libs,
                before == old(self).coords@,
                self.coords@ == before + c.coords@.subrange(0, i as int),
            decreases c.coords.len() - i,
        {
            self.coords.push(c.coords[i]);
            assert(c.coords@.subrange(0, i + 1) =~= c.coords@.subrange(0, i as int).push(c.coords@[i as int]));
            i = i + 1;
        }
        assert(c.coords@.subrange(0, c.coords.len() as int) =~= c.coords@);
    }

    pub fn coords(&self) -> (res: &Vec<Coord>)
        ensures
            res@ == self@.stones,
    {
        &self.coords
    }

    /// The identifier, the colour and the stones, as in `1, Black: 7,7|7,8|`.
    pub fn show(&self) -> (res: String)
        ensures
            res@ == decimal(self@.id as nat) + seq![','] + seq![' '] + color_name(self@.color) + seq![':', ' ']
                + stones_text(self@.stones),
    {
        let mut s = String::new();
        push_decimal(&mut s, self.id as u128);
        push_char(&mut s, ',');
        push_char(&mut s, ' ');
        push_color_name(&mut s, self.color);
        push_char(&mut s, ':');
        push_char(&mut s, ' ');
        let ghost head = s@;
        let mut i: usize = 0;
        while i < self.coords.len()
            invariant
                i <= self.coords.len(),
                s@ == head + stones_text(self.coords@.subrange(0, i as int)),
            decreases self.coords.len() - i,
        {
            let c = self.coords[i];
            push_decimal(&mut s, c.col as u128);
            push_char(&mut s, ',');
            push_decimal(&mut s, c.row as u128);
            push_char(&mut s, '|');
            proof {
                let post = self.coords@.subrange(0, i + 1);
                assert(post.drop_last() =~= self.coords@.subrange(0, i as int));
                assert(post.last() == c);
            }
            i = i + 1;
        }
        assert(self.coords@.subrange(0, self.coords.len() as int) =~= self.coords@);
        s
    }
}

} // verus!
