//! Server configuration: the parameters the world and the server are built
//! from, and their validation.

use vstd::prelude::*;

verus! {

/// Configuration of the Zappy server.
pub struct ServerConfig {
    /// Port number on which the server will listen.
    pub port: u16,
    /// Width of the world map (Trantor).
    pub width: u32,
    /// Height of the world map (Trantor).
    pub height: u32,
    /// List of team names.
    pub teams: Vec<String>,
    /// Maximum number of authorized clients per team at start.
    pub clients_nb: usize,
    /// Frequency reciprocal for action execution time (default 100).
    pub freq: u32,
    /// Enable the terminal dashboard.
    pub bonus: bool,
}

/// The complaints about a configuration, in order: zero map dimensions,
/// zero clients per team, zero frequency, no team name.
pub open spec fn config_errors(c: ServerConfig) -> Seq<Seq<char>> {
    (if c.width == 0 {
        seq!["Width (-x) must be greater than 0."@]
    } else {
        Seq::empty()
    }) + (if c.height == 0 {
        seq!["Height (-y) must be greater than 0."@]
    } else {
        Seq::empty()
    }) + (if c.clients_nb == 0 {
        seq!["Number of authorized clients per team (-c) must be greater than 0."@]
    } else {
        Seq::empty()
    }) + (if c.freq == 0 {
        seq!["Frequency (-f) must be greater than 0."@]
    } else {
        Seq::empty()
    }) + (if c.teams@.len() == 0 {
        seq!["You must provide at least one team name (-n)."@]
    } else {
        Seq::empty()
    })
}

impl ServerConfig {
    /// Validates the parameters: returns every complaint about them (zero
    /// map dimensions, zero clients or frequency, no team name); an empty
    /// list means the configuration is usable.
    pub fn validate(&self) -> (res: Vec<&'static str>)
        ensures
            res@.map_values(|m: &str| m@) == config_errors(*self),
    {
        let mut errors: Vec<&'static str> = Vec::new();
        if self.width == 0 {
            errors.push("Width (-x) must be greater than 0.");
        }
        if self.height == 0 {
            errors.push("Height (-y) must be greater than 0.");
        }
        if self.clients_nb == 0 {
            errors.push("Number of authorized clients per team (-c) must be greater than 0.");
        }
        if self.freq == 0 {
            errors.push("Frequency (-f) must be greater than 0.");
        }
        if self.teams.len() == 0 {
            errors.push("You must provide at least one team name (-n).");
        }
        assert(errors@.map_values(|m: &str| m@) =~= config_errors(*self));
        errors
    }

    /// The configuration can run a server: a non-empty map, a positive
    /// frequency, and a map small enough to be indexed.
    pub open spec fn runnable(self) -> bool {
        &&& self.width > 0
        &&& self.height > 0
        &&& self.freq > 0
        &&& self.width * self.height <= u32::MAX
        &&& self.width <= i32::MAX
        &&& self.height <= i32::MAX
    }

    /// Whether the configuration can run a server (see
    /// [`ServerConfig::runnable`]).
    pub fn is_runnable(&self) -> (res: bool)
        ensures
            res == self.runnable(),
    {
        if self.width == 0 || self.height == 0 || self.freq == 0 {
            return false;
        }
        if self.width > 2147483647u32 || self.height > 2147483647u32 {
            return false;
        }
        let w = self.width as u64;
        let h = self.height as u64;
        assert(w * h <= 2147483647u64 * 2147483647u64) by (nonlinear_arith)
            requires
                w <= 2147483647u64,
                h <= 2147483647u64,
        ;
        w * h <= 4294967295u64
    }
}

} // verus!
