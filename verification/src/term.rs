//! What the programs ask of the terminal and learn from the signal catcher,
//! as plain values: the terminal call itself and the signal handler live
//! with the programs.
use vstd::prelude::*;

verus! {

/// The file descriptor of standard input.
pub const STDIN_FILENO: i32 = 0;

/// A request to put a terminal in or out of game mode: keys arrive one by
/// one and are not echoed.
#[derive(Clone, Copy, PartialEq, Eq, Structural, Debug)]
pub struct TtyRequest {
    pub fd: i32,
    /// 1 to enter game mode, 0 to leave it.
    pub on: i32,
}

/// The request for game mode on `fd`.
pub fn game_mode_on(fd: i32, on: bool) -> (r: TtyRequest)
    ensures
        r.fd == fd,
        r.on == (if on {
            1i32
        } else {
            0i32
        }),
{
    TtyRequest {
        fd,
        on: if on {
            1
        } else {
            0
        },
    }
}

/// The request for game mode on standard input.
pub fn game_mode(on: bool) -> (r: TtyRequest)
    ensures
        r.fd == STDIN_FILENO,
        r.on == (if on {
            1i32
        } else {
            0i32
        }),
{
    game_mode_on(STDIN_FILENO, on)
}

/// Whether the terminal call succeeded: it returns 0 on success.
pub fn tty_ok(rc: i32) -> (b: bool)
    ensures
        b == (rc == 0),
{
    rc == 0
}

/// Whether a signal arrived, from the number that the catcher counted.
pub fn get(caught: u32) -> (b: bool)
    ensures
        b == (caught != 0),
{
    caught != 0
}

} // verus!
