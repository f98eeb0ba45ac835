//! Per-file metadata assembly: the pragma pre-filter that decides whether a
//! file takes part in extraction at all, and the combination of runner
//! discovery and schema matching into one record.

use vstd::prelude::*;

use crate::discover::{
    TsNode, find_exported_runners, find_exported_schemas, nview, runners_of, schemas_of, wf_node,
};
use crate::paths::{normalize_path, normalized, seg_views};
use crate::text::{chars_of, contains_seq, contains_substring};
use crate::types::{GRunner, SchemaMetadata, rviews, scviews};

verus! {

/// The pragma occurs somewhere in the file's raw text, in double or single
/// quotes. Only such files are materialized by the extraction path.
pub open spec fn has_directive(s: Seq<char>) -> bool {
    contains_seq(s, "\"use runner\""@) || contains_seq(s, "'use runner'"@)
}

/// Whether the file's text contains the quoted pragma anywhere.
pub fn has_use_runner_directive(content: &str) -> (r: bool)
    ensures
        r == has_directive(content@),
{
    let cs = chars_of(content);
    let dq = chars_of("\"use runner\"");
    if contains_substring(&cs, &dq) {
        return true;
    }
    let sq = chars_of("'use runner'");
    contains_substring(&cs, &sq)
}

/// The names of a runner sequence, in discovery order.
pub open spec fn runner_names(rs: Seq<GRunner>) -> Seq<Seq<char>> {
    rs.map_values(|r: GRunner| r.name)
}

/// One file's metadata: the normalized path, the discovered runners, and
/// the schemas matched against those runners' names.
pub fn extract_file_metadata(path: &str, source: &Vec<u8>, tree: &TsNode) -> (m: SchemaMetadata)
    requires
        wf_node(nview(*tree), source@.len() as nat),
        source@.len() < usize::MAX,
    ensures
        m.file@ == normalized(path@),
        rviews(m.runners@) == runners_of(nview(*tree), false, source@),
        scviews(m.schemas@) == schemas_of(
            nview(*tree),
            false,
            runner_names(runners_of(nview(*tree), false, source@)),
            source@,
        ),
{
    let runners = find_exported_runners(source, tree);
    let mut names: Vec<String> = Vec::new();
    proof {
        assert(seg_views(names@) =~= runner_names(rviews(runners@)).take(0));
    }
    let n = runners.len();
    let mut i: usize = 0;
    while i < n
        invariant
            n == runners@.len(),
            i <= n,
            seg_views(names@) == runner_names(rviews(runners@)).take(i as int),
        decreases n - i,
    {
        let ghost prev = names@;
        let name = runners[i].name.clone();
        names.push(name);
        i += 1;
        proof {
            let ghost rn = runner_names(rviews(runners@));
            assert(seg_views(prev).len() == prev.len());
            assert(rn.take(i - 1).len() == i - 1);
            assert(prev.len() == i - 1);
            assert(names@ == prev.push(runners@[i - 1].name));
            assert(names@.len() == i as int);
            assert(names@[i - 1] == runners@[i - 1].name);
            assert(seg_views(names@)[i - 1] == runners@[i - 1].name@);
            assert(rn[i - 1] == runners@[i - 1].name@);
            assert forall|k: int| 0 <= k < i - 1 implies seg_views(names@)[k] == rn.take(
                i as int,
            )[k] by {
                assert(names@[k] == prev[k]);
                assert(seg_views(prev)[k] == rn.take(i - 1)[k]);
            }
            assert(seg_views(names@) =~= rn.take(i as int));
        }
    }
    proof {
        assert(runner_names(rviews(runners@)).take(n as int) =~= runner_names(rviews(runners@)));
    }
    let schemas = find_exported_schemas(source, tree, &names);
    let file = normalize_path(path);
    SchemaMetadata { file, runners, schemas }
}

} // verus!
