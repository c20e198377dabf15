//! Squares and their diagonal neighbours, computed.

use crate::checkers::{BLACK, WHITE};
use crate::rules::{back_rank, enemy_of, landing_on_board, neighbour_on_board, Dir};
use vstd::prelude::*;

verus! {

pub(crate) fn enemy(color: u8) -> (r: u8)
    ensures
        r == enemy_of(color),
{
    if color == BLACK {
        WHITE
    } else {
        BLACK
    }
}

pub(crate) fn on_back_rank(color: u8, sq: u8) -> (r: bool)
    ensures
        r == back_rank(color, sq as int),
{
    if color == BLACK {
        sq < 8
    } else {
        sq > 55
    }
}

pub(crate) fn has_neighbour(from: u8, d: Dir) -> (r: bool)
    ensures
        r == neighbour_on_board(from as int, d),
{
    let row_ok: bool = match d {
        Dir::UpLeft | Dir::UpRight => from > 7 && from < 64,
        Dir::DownLeft | Dir::DownRight => from < 56,
    };
    let col_ok: bool = match d {
        Dir::UpLeft | Dir::DownLeft => from % 8 > 0,
        Dir::UpRight | Dir::DownRight => from % 8 < 7,
    };
    row_ok && col_ok
}

pub(crate) fn has_landing(from: u8, d: Dir) -> (r: bool)
    ensures
        r == landing_on_board(from as int, d),
{
    let row_ok: bool = match d {
        Dir::UpLeft | Dir::UpRight => from > 15 && from < 64,
        Dir::DownLeft | Dir::DownRight => from < 48,
    };
    let col_ok: bool = match d {
        Dir::UpLeft | Dir::DownLeft => from % 8 > 1,
        Dir::UpRight | Dir::DownRight => from % 8 < 6,
    };
    row_ok && col_ok
}

pub(crate) fn neighbour(from: u8, d: Dir) -> (r: u8)
    requires
        neighbour_on_board(from as int, d),
    ensures
        r == from + d.offset(),
        r < 64,
{
    match d {
        Dir::UpLeft => from - 9,
        Dir::UpRight => from - 7,
        Dir::DownLeft => from + 7,
        Dir::DownRight => from + 9,
    }
}

pub(crate) fn landing(from: u8, d: Dir) -> (r: u8)
    requires
        landing_on_board(from as int, d),
    ensures
        r == from + 2 * d.offset(),
        r < 64,
{
    match d {
        Dir::UpLeft => from - 18,
        Dir::UpRight => from - 14,
        Dir::DownLeft => from + 14,
        Dir::DownRight => from + 18,
    }
}

} // verus!
