//! Hydra: job URLs, evaluation records and the revisions they were built at.
use crate::config::{opt_text, spec_full_attr_prefix, ConfigView, PinConfig};
use crate::error::{join2, join3, join4, Error};
use crate::pattern::{compile, group_capture, named_capture, regex_error, regex_group_capture, regex_named_capture};
use crate::text::{
    char_index, chars_of, copy_string, decimal, i64_text, owned, parse_i64, parse_i64_value, replace_all,
    replace_all_text, signed_decimal, string_of_range, text_eq, usize_text, lemma_char_index_from,
};
use crate::textmap::{lookup, TextMap};
use vstd::prelude::*;

verus! {

/// Whether Hydra has a finished build of a package.
#[derive(Debug, Clone, Copy, PartialEq, Eq, Structural)]
pub enum HydraStatus {
    OnHydra,
    NotOnHydra,
}

/// What Hydra's latest finished build of a package shows.
#[derive(Debug)]
pub struct HydraBuildResult {
    pub package: String,
    /// The evaluations that include the build, newest first.
    pub evals: Vec<i64>,
    pub status: HydraStatus,
    pub store_path: Option<String>,
    /// Why Hydra could not be asked.
    pub error: Option<String>,
}

/// The result for a package whose latest finished build Hydra returned.
pub fn build_on_hydra(package: &str, evals: Option<Vec<i64>>, out_path: Option<String>) -> (r: HydraBuildResult)
    ensures
        r.package@ == package@,
        r.status == HydraStatus::OnHydra,
        r.evals@ == match evals {
            Some(v) => v@,
            None => Seq::<i64>::empty(),
        },
        opt_text(r.store_path) == opt_text(out_path),
        r.error is None,
{
    let evals = match evals {
        Some(v) => v,
        None => Vec::new(),
    };
    HydraBuildResult { package: owned(package), evals, status: HydraStatus::OnHydra, store_path: out_path, error: None }
}

/// The result for a package without a finished build Hydra would return.
pub fn build_not_on_hydra(package: &str) -> (r: HydraBuildResult)
    ensures
        r.package@ == package@,
        r.status == HydraStatus::NotOnHydra,
        r.evals@.len() == 0,
        r.store_path is None,
        r.error is None,
{
    HydraBuildResult { package: owned(package), evals: Vec::new(), status: HydraStatus::NotOnHydra, store_path: None, error: None }
}

/// The job path of a package: the configured pattern with `{jobset}`,
/// `{fullAttrPrefix}`, `{attrPrefix}`, `{arch}` and `{pkg}` filled in, in
/// that order.
pub open spec fn spec_job_path(c: ConfigView, pkg: Seq<char>) -> Seq<char> {
    let a = replace_all(c.hydra_job_pattern, "{jobset}"@, c.hydra_jobset);
    let b = replace_all(a, "{fullAttrPrefix}"@, spec_full_attr_prefix(c));
    let d = replace_all(b, "{attrPrefix}"@, c.attr_prefix);
    let e = replace_all(d, "{arch}"@, c.arch);
    replace_all(e, "{pkg}"@, pkg)
}

/// The URL of a package's latest finished Hydra build.
pub open spec fn spec_hydra_job_url(c: ConfigView, pkg: Seq<char>) -> Seq<char> {
    c.hydra_url + "/job/"@ + spec_job_path(c, pkg) + "/latest-finished"@
}

/// Builds the URL of a package's latest finished Hydra build.
pub fn build_hydra_job_url(cfg: &PinConfig, pkg: &str) -> (r: String)
    ensures
        r@ == spec_hydra_job_url(cfg@, pkg@),
{
    proof {
        reveal_strlit("{jobset}");
        reveal_strlit("{fullAttrPrefix}");
        reveal_strlit("{attrPrefix}");
        reveal_strlit("{arch}");
        reveal_strlit("{pkg}");
    }
    let a = replace_all_text(cfg.hydra_job_pattern.as_str(), "{jobset}", cfg.hydra_jobset.as_str());
    let b = replace_all_text(a.as_str(), "{fullAttrPrefix}", cfg.full_attr_prefix());
    let d = replace_all_text(b.as_str(), "{attrPrefix}", cfg.attr_prefix.as_str());
    let e = replace_all_text(d.as_str(), "{arch}", cfg.arch.as_str());
    let pattern = replace_all_text(e.as_str(), "{pkg}", pkg);
    join4(cfg.hydra_url.as_str(), "/job/", pattern.as_str(), "/latest-finished")
}

/// A Hydra evaluation: its id, the flake it evaluated, and the revisions of
/// its named inputs.
#[derive(Debug)]
pub struct HydraEval {
    pub id: i64,
    pub flake: Option<String>,
    /// Input name to the input's revision (when it records one as text);
    /// none when the evaluation's inputs were not fetched.
    pub jobsetevalinputs: Option<TextMap<Option<String>>>,
}

/// The pattern that finds a full revision in a flake reference.
pub open spec fn full_rev_pattern() -> Seq<char> {
    "(?P<rev>[0-9a-f]{40})"@
}

/// The full revision found in an evaluation's flake reference.
pub open spec fn flake_rev(eval: HydraEval) -> Option<Seq<char>> {
    match eval.flake {
        None => None,
        Some(f) => if regex_error(full_rev_pattern()) is Some {
            None
        } else {
            regex_named_capture(full_rev_pattern(), f@, "rev"@)
        },
    }
}

/// The revision an evaluation was built at: from the evaluated flake
/// reference when the revision input is `flake` (or the inputs are not
/// known), else from the named input.
pub open spec fn spec_extract_eval_rev(c: ConfigView, eval: HydraEval) -> Option<Seq<char>> {
    if c.hydra_rev_input == "flake"@ || eval.jobsetevalinputs is None {
        match eval.flake {
            None => None,
            Some(f) => if regex_error(full_rev_pattern()) is Some {
                None
            } else {
                regex_named_capture(full_rev_pattern(), f@, "rev"@)
            },
        }
    } else {
        match lookup(eval.jobsetevalinputs->0@, c.hydra_rev_input) {
            Some(v) => opt_text(v),
            None => None,
        }
    }
}

/// When the evaluation's inputs are not known, or the revision input is
/// `flake`, the revision comes from the evaluated flake reference, whatever
/// input the configuration names; so two configurations that differ only in
/// the input they name read the same revision from such an evaluation.
pub proof fn lemma_eval_rev_from_flake(c: ConfigView, d: ConfigView, eval: HydraEval)
    ensures
        eval.jobsetevalinputs is None ==> spec_extract_eval_rev(c, eval) == flake_rev(eval),
        c.hydra_rev_input == "flake"@ ==> spec_extract_eval_rev(c, eval) == flake_rev(eval),
        eval.jobsetevalinputs is None ==> spec_extract_eval_rev(c, eval) == spec_extract_eval_rev(d, eval),
        match eval.jobsetevalinputs {
            Some(m) => c.hydra_rev_input != "flake"@ ==> spec_extract_eval_rev(c, eval) == match lookup(m@, c.hydra_rev_input) {
                Some(Some(v)) => Some(v@),
                _ => None,
            },
            None => true,
        },
{
}

/// Extracts the revision an evaluation was built at.
pub fn extract_eval_rev(cfg: &PinConfig, eval: &HydraEval) -> (r: Option<String>)
    ensures
        opt_text(r) == spec_extract_eval_rev(cfg@, *eval),
        eval.jobsetevalinputs is None ==> opt_text(r) == flake_rev(*eval),
        cfg@.hydra_rev_input == "flake"@ ==> opt_text(r) == flake_rev(*eval),
{
    if text_eq(cfg.hydra_rev_input.as_str(), "flake") || eval.jobsetevalinputs.is_none() {
        let flake = match &eval.flake {
            Some(f) => f,
            None => {
                return None;
            },
        };
        let re = match compile("(?P<rev>[0-9a-f]{40})") {
            Ok(re) => re,
            Err(_) => {
                return None;
            },
        };
        return named_capture(&re, flake.as_str(), "rev");
    }
    match &eval.jobsetevalinputs {
        Some(inputs) => match inputs.get(cfg.hydra_rev_input.as_str()) {
            Some(Some(rev)) => Some(copy_string(rev)),
            _ => None,
        },
        None => None,
    }
}

/// The URL of a jobset's evaluation list, when the jobset is named
/// `project/jobset`.
pub open spec fn spec_jobset_evals_url(c: ConfigView, limit: nat) -> Option<Seq<char>> {
    match char_index(c.hydra_jobset, '/') {
        None => None,
        Some(i) => Some(c.hydra_url + "/jobset/"@ + c.hydra_jobset.subrange(0, i) + "/"@
            + c.hydra_jobset.subrange(i + 1, c.hydra_jobset.len() as int) + "/evals?limit="@ + decimal(limit)),
    }
}

/// Builds the URL of a jobset's evaluation list.
pub fn jobset_evals_url(cfg: &PinConfig, limit: usize) -> (r: Option<String>)
    ensures
        opt_text(r) == spec_jobset_evals_url(cfg@, limit as nat),
{
    let v = chars_of(cfg.hydra_jobset.as_str());
    let mut i: usize = 0;
    while i < v.len() && v[i] != '/'
        invariant
            v@ == cfg.hydra_jobset@,
            i <= v@.len(),
            forall|k: int| 0 <= k < i ==> v@[k] != '/',
        decreases v@.len() - i,
    {
        i = i + 1;
    }
    proof {
        lemma_char_index_from(v@, '/', 0);
    }
    if i == v.len() {
        return None;
    }
    let project = string_of_range(&v, 0, i);
    let jobset = string_of_range(&v, i + 1, v.len());
    let head = join4(cfg.hydra_url.as_str(), "/jobset/", project.as_str(), "/");
    let tail = join3(jobset.as_str(), "/evals?limit=", usize_text(limit).as_str());
    Some(join2(head.as_str(), tail.as_str()))
}

/// How many bytes of an evaluation response are read before parsing.
pub const EVAL_RESPONSE_MAX_BYTES: usize = 4096;

/// Takes one chunk of an evaluation response into the bounded buffer and
/// says whether to keep reading.
pub fn accept_chunk(buf: &mut Vec<u8>, chunk: &[u8]) -> (keep_reading: bool)
    ensures
        old(buf)@.len() >= EVAL_RESPONSE_MAX_BYTES ==> final(buf)@ == old(buf)@ && !keep_reading,
        old(buf)@.len() < EVAL_RESPONSE_MAX_BYTES ==> {
            let take = if chunk@.len() < EVAL_RESPONSE_MAX_BYTES - old(buf)@.len() {
                chunk@.len() as int
            } else {
                EVAL_RESPONSE_MAX_BYTES - old(buf)@.len()
            };
            &&& final(buf)@ == old(buf)@ + chunk@.subrange(0, take)
            &&& keep_reading == (final(buf)@.len() < EVAL_RESPONSE_MAX_BYTES)
        },
{
    if buf.len() >= EVAL_RESPONSE_MAX_BYTES {
        return false;
    }
    let remaining = EVAL_RESPONSE_MAX_BYTES - buf.len();
    let end = if chunk.len() < remaining { chunk.len() } else { remaining };
    let ghost start = buf@;
    let mut i: usize = 0;
    while i < end
        invariant
            i <= end <= chunk@.len(),
            buf@ == start + chunk@.subrange(0, i as int),
        decreases end - i,
    {
        buf.push(chunk[i]);
        assert(chunk@.subrange(0, i + 1) =~= chunk@.subrange(0, i as int).push(chunk@[i as int]));
        i = i + 1;
    }
    buf.len() < EVAL_RESPONSE_MAX_BYTES
}

/// The pattern that finds an evaluation's id.
pub open spec fn id_pattern() -> Seq<char> {
    "\"id\"\\s*:\\s*(\\d+)"@
}

/// The pattern that finds an evaluation's flake.
pub open spec fn flake_pattern() -> Seq<char> {
    "\"flake\"\\s*:\\s*\"([^\"]+)\""@
}

/// What the first bytes of an evaluation response say: its id and, when
/// they include it, its flake; or why they cannot be read.
pub open spec fn spec_bounded_eval(bytes: Seq<u8>, eval_id: int) -> Result<(int, Option<Seq<char>>), Seq<char>> {
    if !vstd::utf8::valid_utf8(bytes) {
        Err("eval response is not valid UTF-8"@)
    } else {
        let text = vstd::utf8::decode_utf8(bytes);
        match regex_error(id_pattern()) {
            Some(e) => Err("id regex: "@ + e),
            None => match match regex_group_capture(id_pattern(), text, 1) {
                Some(digits) => parse_i64_value(digits),
                None => None,
            } {
                None => Err("eval id not found in truncated response for eval "@ + signed_decimal(eval_id)),
                Some(id) => match regex_error(flake_pattern()) {
                    Some(e) => Err("flake regex: "@ + e),
                    None => Ok((id, regex_group_capture(flake_pattern(), text, 1))),
                },
            },
        }
    }
}

/// Reads the id and flake of an evaluation from the first bytes of its
/// response.
pub fn parse_bounded_eval(bytes: &[u8], eval_id: i64) -> (r: Result<HydraEval, Error>)
    ensures
        match r {
            Ok(e) => e.jobsetevalinputs is None
                && spec_bounded_eval(bytes@, eval_id as int) == Ok::<(int, Option<Seq<char>>), Seq<char>>((e.id as int, opt_text(e.flake))),
            Err(e) => e matches Error::Config(m)
                && spec_bounded_eval(bytes@, eval_id as int) == Err::<(int, Option<Seq<char>>), Seq<char>>(m@),
        },
{
    let text = match crate::text::utf8_text(bytes) {
        Some(t) => t,
        None => {
            return Err(Error::Config(owned("eval response is not valid UTF-8")));
        },
    };
    let re_id = match compile("\"id\"\\s*:\\s*(\\d+)") {
        Ok(re) => re,
        Err(e) => {
            return Err(Error::Config(join2("id regex: ", e.as_str())));
        },
    };
    let id = match group_capture(&re_id, text.as_str(), 1) {
        Some(digits) => parse_i64(digits.as_str()),
        None => None,
    };
    let id = match id {
        Some(id) => id,
        None => {
            return Err(Error::Config(join2("eval id not found in truncated response for eval ", i64_text(eval_id).as_str())));
        },
    };
    let re_flake = match compile("\"flake\"\\s*:\\s*\"([^\"]+)\"") {
        Ok(re) => re,
        Err(e) => {
            return Err(Error::Config(join2("flake regex: ", e.as_str())));
        },
    };
    let flake = group_capture(&re_flake, text.as_str(), 1);
    Ok(HydraEval { id, flake, jobsetevalinputs: None })
}

/// A bounded read is enough when it found the evaluation's flake;
/// otherwise the whole evaluation is fetched.
pub fn bounded_eval_usable(r: &Result<HydraEval, Error>) -> (usable: bool)
    ensures
        usable == (r matches Ok(e) && e.flake is Some),
{
    match r {
        Ok(e) => e.flake.is_some(),
        Err(_) => false,
    }
}

} // verus!
