use vstd::prelude::*;

verus! {

/// How many polls wait for the client handle to appear.
pub const HANDLE_POLLS: u32 = 50;

/// How many polls wait for the session to enter the game.
pub const GAME_POLLS: u32 = 100;

/// Pause before each poll, in milliseconds.
pub const POLL_INTERVAL_MS: u64 = 100;

/// Pause after the session is ready, for the world to sync, in milliseconds.
pub const SYNC_GRACE_MS: u64 = 500;

/// Why a connection could not be set up.
#[derive(Clone, Copy, Debug, PartialEq, Eq, Structural)]
pub enum SetupError {
    /// No client handle appeared within its polls.
    NoHandle,
    /// The session did not enter the game within its polls.
    NotInGame,
}

/// Where connection set-up stands; the counts are the polls spent so far.
#[derive(Clone, Copy, Debug, PartialEq, Eq, Structural)]
pub enum Readiness {
    AwaitingHandle(u32),
    AwaitingGame(u32),
    Ready,
    Failed(SetupError),
}

impl Readiness {
    pub open spec fn wf(self) -> bool {
        match self {
            Readiness::AwaitingHandle(n) => n < HANDLE_POLLS,
            Readiness::AwaitingGame(n) => n < GAME_POLLS,
            _ => true,
        }
    }

    /// How many more polls set-up can take at most.
    pub open spec fn polls_left(self) -> nat {
        match self {
            Readiness::AwaitingHandle(n) => (HANDLE_POLLS - n) as nat + GAME_POLLS as nat,
            Readiness::AwaitingGame(n) => (GAME_POLLS - n) as nat,
            _ => 0,
        }
    }

    /// Whether set-up has ended, one way or the other.
    pub open spec fn is_settled(self) -> bool {
        self is Ready || self is Failed
    }

    /// Set-up before the first poll.
    pub fn start() -> (r: Readiness)
        ensures
            r == Readiness::AwaitingHandle(0),
            r.wf(),
    {
        Readiness::AwaitingHandle(0)
    }

    /// Whether set-up has ended, one way or the other.
    pub fn settled(&self) -> (r: bool)
        ensures
            r == self.is_settled(),
    {
        match self {
            Readiness::Ready | Readiness::Failed(_) => true,
            _ => false,
        }
    }

    /// The next state after one poll that saw whether the client handle
    /// exists and whether the session is in the game. Waiting for the handle
    /// moves on once it exists and fails after its last poll; waiting for
    /// the game ends ready once the session is in it and fails after its last
    /// poll. A settled state stays as it is.
    pub fn observe(self, has_handle: bool, in_game: bool) -> (r: Readiness)
        requires
            self.wf(),
        ensures
            r.wf(),
            r == match self {
                Readiness::AwaitingHandle(n) => if has_handle {
                    Readiness::AwaitingGame(0)
                } else if n + 1 >= HANDLE_POLLS {
                    Readiness::Failed(SetupError::NoHandle)
                } else {
                    Readiness::AwaitingHandle((n + 1) as u32)
                },
                Readiness::AwaitingGame(n) => if in_game {
                    Readiness::Ready
                } else if n + 1 >= GAME_POLLS {
                    Readiness::Failed(SetupError::NotInGame)
                } else {
                    Readiness::AwaitingGame((n + 1) as u32)
                },
                s => s,
            },
            !self.is_settled() ==> r.polls_left() < self.polls_left(),
    {
        match self {
            Readiness::AwaitingHandle(n) => {
                if has_handle {
                    Readiness::AwaitingGame(0)
                } else if n + 1 >= HANDLE_POLLS {
                    Readiness::Failed(SetupError::NoHandle)
                } else {
                    Readiness::AwaitingHandle(n + 1)
                }
            },
            Readiness::AwaitingGame(n) => {
                if in_game {
                    Readiness::Ready
                } else if n + 1 >= GAME_POLLS {
                    Readiness::Failed(SetupError::NotInGame)
                } else {
                    Readiness::AwaitingGame(n + 1)
                }
            },
            s => s,
        }
    }
}

} // verus!
