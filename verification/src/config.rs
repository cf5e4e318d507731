//! The pipeline's configuration: where settings, texts and vector files live.

use vstd::prelude::*;
use crate::hashed::StrMap;
use crate::text::{chars_of, owned};

verus! {

/// The core settings of the configuration file.
pub struct ConfigCore {
    pub base_dir: String,
    pub settings_dir: String,
    pub texts_dir: String,
    pub transformers_postprocess_dir: Option<String>,
}

/// Where the corpus settings live.
pub struct CorpusConf {
    pub settings_dir: String,
}

/// The configuration of the pipeline.
pub struct StrixConfig {
    pub core: ConfigCore,
    pub corpusconf: CorpusConf,
}

/// A mode: its name and its name in each language.
pub struct ModeConfig {
    pub name: String,
    pub translation_name: StrMap,
}

/// The configuration could not be loaded.
pub enum ConfigError {
    Load,
}

/// `base` joined with `p`, as `Path::join` does on Unix: an absolute `p`
/// replaces `base`; otherwise a `/` goes between them unless `base` is
/// empty or already ends with one.
pub open spec fn path_join(base: Seq<char>, p: Seq<char>) -> Seq<char> {
    if p.len() > 0 && p[0] == '/' {
        p
    } else if base.len() == 0 || base.last() == '/' {
        base + p
    } else {
        base + "/"@ + p
    }
}

/// Whether a path is absolute, that is, starts at the root.
pub open spec fn is_absolute(p: Seq<char>) -> bool {
    p.len() > 0 && p[0] == '/'
}

/// `Path::join` on Unix paths.
pub fn join_path(base: &str, p: &str) -> (r: String)
    ensures
        r@ == path_join(base@, p@),
{
    let pc = chars_of(p);
    if pc.len() > 0 && pc[0] == '/' {
        return owned(p);
    }
    let bc = chars_of(base);
    let mut r = owned(base);
    if bc.len() > 0 && bc[bc.len() - 1] != '/' {
        r.append("/");
    }
    r.append(p);
    r
}

/// Whether a path is absolute (`Path::starts_with("/")` on Unix).
pub fn path_is_absolute(p: &str) -> (r: bool)
    ensures
        r == is_absolute(p@),
{
    let pc = chars_of(p);
    pc.len() > 0 && pc[0] == '/'
}

impl StrixConfig {
    /// The configuration of the core settings, with the corpus settings in
    /// its settings directory.
    pub fn from_core(core: ConfigCore) -> (r: Result<StrixConfig, ConfigError>)
        ensures
            r matches Ok(c) && c.core == core && c.corpusconf.settings_dir@ == core.settings_dir@,
    {
        let corpusconf = match CorpusConf::from_path(core.settings_dir.as_str()) {
            Ok(c) => c,
            Err(e) => {
                return Err(e);
            },
        };
        Ok(StrixConfig { core, corpusconf })
    }

    /// The base directory.
    pub fn base_dir(&self) -> (r: &String)
        ensures
            r == self.core.base_dir,
    {
        &self.core.base_dir
    }

    /// The settings directory.
    pub fn settings_dir(&self) -> (r: &String)
        ensures
            r == self.core.settings_dir,
    {
        &self.core.settings_dir
    }

    /// The directory of the corpus texts.
    pub fn texts_dir(&self) -> (r: &String)
        ensures
            r == self.core.texts_dir,
    {
        &self.core.texts_dir
    }

    /// The directory of the vector files, where configured.
    pub fn transformers_postprocess_dir(&self) -> (r: Option<&String>)
        ensures
            match r {
                Some(d) => self.core.transformers_postprocess_dir == Some(*d),
                None => self.core.transformers_postprocess_dir is None,
            },
    {
        match &self.core.transformers_postprocess_dir {
            Some(d) => Some(d),
            None => None,
        }
    }

    /// The corpus settings.
    pub fn corpusconf(&self) -> (r: &CorpusConf)
        ensures
            r == self.corpusconf,
    {
        &self.corpusconf
    }
}

impl CorpusConf {
    /// The corpus settings in the directory `path`.
    pub fn from_path(path: &str) -> (r: Result<CorpusConf, ConfigError>)
        ensures
            r matches Ok(c) && c.settings_dir@ == path@,
    {
        Ok(CorpusConf { settings_dir: owned(path) })
    }

    /// The file of the mode `mode_name`: `modes/<mode_name>.yaml` in the
    /// settings directory.
    pub fn mode_path(&self, mode_name: &str) -> (r: String)
        ensures
            r@ == path_join(self.settings_dir@, "modes/"@ + mode_name@ + ".yaml"@),
    {
        let mut p = String::from_str("modes/");
        p.append(mode_name);
        p.append(".yaml");
        join_path(self.settings_dir.as_str(), p.as_str())
    }
}

} // verus!
