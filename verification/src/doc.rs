use vstd::prelude::*;

verus! {

/// What the documentation command does besides documenting the workspace.
pub struct DocPlan {
    /// The device the documentation examples run on.
    pub device: String,
    /// Crates left out of the workspace documentation.
    pub excluded: Vec<String>,
    /// Crates documented separately, with all their features.
    pub all_features_crates: Vec<String>,
}

/// The views of a list of strings.
pub open spec fn string_views(strings: Seq<String>) -> Seq<Seq<char>> {
    strings.map_values(|s: String| s@)
}

/// The plan of the documentation command; `building` tells a documentation build from a
/// documentation test run.
///
/// The examples always run on the portable `flex` device. A build leaves out the GPU
/// backends, whose toolchains the documentation runners lack, and documents
/// `cortex-dataset` separately with all its features.
pub fn doc_plan(building: bool) -> (plan: DocPlan)
    ensures
        plan.device@ == "flex"@,
        string_views(plan.excluded@) == if building {
            seq!["cortex-cuda"@, "cortex-rocm"@]
        } else {
            Seq::<Seq<char>>::empty()
        },
        string_views(plan.all_features_crates@) == if building {
            seq!["cortex-dataset"@]
        } else {
            Seq::<Seq<char>>::empty()
        },
{
    let device = "flex".to_string();
    proof {
        vstd::string::to_string_from_display_ensures_for_str("flex", device);
    }
    let mut excluded: Vec<String> = Vec::new();
    let mut all_features_crates: Vec<String> = Vec::new();
    if building {
        let cuda = "cortex-cuda".to_string();
        let rocm = "cortex-rocm".to_string();
        let dataset = "cortex-dataset".to_string();
        proof {
            vstd::string::to_string_from_display_ensures_for_str("cortex-cuda", cuda);
            vstd::string::to_string_from_display_ensures_for_str("cortex-rocm", rocm);
            vstd::string::to_string_from_display_ensures_for_str("cortex-dataset", dataset);
        }
        excluded.push(cuda);
        excluded.push(rocm);
        all_features_crates.push(dataset);
    }
    proof {
        if building {
            assert(string_views(excluded@) =~= seq!["cortex-cuda"@, "cortex-rocm"@]);
            assert(string_views(all_features_crates@) =~= seq!["cortex-dataset"@]);
        } else {
            assert(string_views(excluded@) =~= Seq::<Seq<char>>::empty());
            assert(string_views(all_features_crates@) =~= Seq::<Seq<char>>::empty());
        }
    }
    DocPlan { device, excluded, all_features_crates }
}

} // verus!
