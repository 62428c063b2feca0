//! The session settings record: the resolved build parameters one command
//! invocation runs with. Constructed once from caller-supplied options and
//! environment probes; read-mostly afterwards, with the linker and archiver
//! settable after construction.
use vstd::prelude::*;
use vstd::string::*;

verus! {

/// Model of the session settings.
pub struct ConfigV {
    pub home_path: Seq<char>,
    pub jobs: int,
    pub target: Option<Seq<char>>,
    pub linker: Option<Seq<char>>,
    pub ar: Option<Seq<char>>,
}

/// Resolved per-invocation session settings.
pub struct Config {
    pub home_path: String,
    pub jobs: usize,
    pub target: Option<String>,
    pub linker: Option<String>,
    pub ar: Option<String>,
}

impl View for Config {
    type V = ConfigV;

    open spec fn view(&self) -> ConfigV {
        ConfigV {
            home_path: self.home_path@,
            jobs: self.jobs as int,
            target: self.target.deep_view(),
            linker: self.linker.deep_view(),
            ar: self.ar.deep_view(),
        }
    }
}

impl Config {
    /// Build the session settings. `home` and `cpus` come from the caller's
    /// environment probes (home-directory lookup, CPU count). Fails exactly
    /// when the job count is explicitly zero or no home directory was found.
    pub fn new(
        home: Option<String>,
        jobs: Option<usize>,
        cpus: usize,
        target: Option<String>,
    ) -> (r: Result<Config, String>)
        requires
            cpus >= 1,
        ensures
            r is Ok <==> (jobs != Some(0usize) && home is Some),
            r is Ok ==> r->Ok_0@.jobs >= 1,
            r is Ok ==> r->Ok_0@ == (ConfigV {
                home_path: home->0@,
                jobs: (if jobs is Some {
                    jobs->0
                } else {
                    cpus
                }) as int,
                target: target.deep_view(),
                linker: None,
                ar: None,
            }),
            r is Err && jobs == Some(0usize) ==> r->Err_0@ == "jobs must be at least 1"@,
            r is Err && jobs != Some(0usize) ==> r->Err_0@
                == "could not determine your home directory"@,
    {
        let jobs_zero = match jobs {
            Some(j) => j == 0,
            None => false,
        };
        if jobs_zero {
            return Err("jobs must be at least 1".to_owned());
        }
        match home {
            None => Err("could not determine your home directory".to_owned()),
            Some(h) => {
                let j = match jobs {
                    Some(j) => j,
                    None => cpus,
                };
                Ok(Config { home_path: h, jobs: j, target, linker: None, ar: None })
            },
        }
    }

    pub fn home(&self) -> (r: &String)
        ensures
            r@ == self@.home_path,
    {
        &self.home_path
    }

    /// Path of the source-control database under the home directory.
    pub fn git_db_path(&self) -> (r: String)
        ensures
            r@ == self@.home_path + "/.cargo/git/db"@,
    {
        self.home_path.clone().concat("/.cargo/git/db")
    }

    /// Path of the source-control checkouts under the home directory.
    pub fn git_checkout_path(&self) -> (r: String)
        ensures
            r@ == self@.home_path + "/.cargo/git/checkouts"@,
    {
        self.home_path.clone().concat("/.cargo/git/checkouts")
    }

    pub fn jobs(&self) -> (r: usize)
        ensures
            r as int == self@.jobs,
    {
        self.jobs
    }

    pub fn target(&self) -> (r: Option<&str>)
        ensures
            r is Some <==> self@.target is Some,
            r is Some ==> r->0@ == self@.target->0,
    {
        match &self.target {
            Some(t) => Some(t.as_str()),
            None => None,
        }
    }

    pub fn set_ar(&mut self, ar: String)
        ensures
            final(self)@ == (ConfigV { ar: Some(ar@), ..old(self)@ }),
    {
        self.ar = Some(ar);
    }

    pub fn set_linker(&mut self, linker: String)
        ensures
            final(self)@ == (ConfigV { linker: Some(linker@), ..old(self)@ }),
    {
        self.linker = Some(linker);
    }

    pub fn linker(&self) -> (r: Option<&str>)
        ensures
            r is Some <==> self@.linker is Some,
            r is Some ==> r->0@ == self@.linker->0,
    {
        match &self.linker {
            Some(t) => Some(t.as_str()),
            None => None,
        }
    }

    pub fn ar(&self) -> (r: Option<&str>)
        ensures
            r is Some <==> self@.ar is Some,
            r is Some ==> r->0@ == self@.ar->0,
    {
        match &self.ar {
            Some(t) => Some(t.as_str()),
            None => None,
        }
    }
}

/// Where a resolved value came from: the project hierarchy or the
/// user-global configuration.
#[derive(PartialEq, Eq, Clone, Copy)]
pub enum Location {
    Project,
    Global,
}

} // verus!
