//! What a cleaning run does.

use vstd::prelude::*;

verus! {

/// How far a cleaning run may go.
#[derive(Debug, Clone, Copy, PartialEq, Eq, Structural)]
pub enum OutputProfile {
    /// Only structure that every importer reads.
    Compat,
    /// The smallest file, with instances and replicas.
    Compact,
}

/// The passes of a cleaning run.
#[derive(Debug, Clone, Copy, PartialEq, Eq, Structural)]
pub struct Options {
    pub intern_values: bool,
    pub consolidate_presentation: bool,
    pub experimental_recover_straight_bspline_lines: bool,
    pub experimental_recover_exact_bezier_curves: bool,
    pub experimental_recover_v_extrusions: bool,
    pub experimental_intern_geometric_supports: bool,
    pub experimental_recover_partitioned_bodies: bool,
    pub experimental_coalesce_same_support_faces: bool,
    pub experimental_instance_translated_bspline_curves: bool,
    pub experimental_instance_z90: bool,
    pub experimental_instance_z90_assembly: bool,
    pub experimental_instance_planar_positive_features: bool,
    pub experimental_instance_spherical_caps: bool,
    pub minify_placeholder_names: bool,
    pub dense_ids: bool,
}

/// The passes that are on unless something else is asked for: sharing of values, merging of
/// presentation roots and dense ids.
pub open spec fn default_options() -> Options {
    Options {
        intern_values: true,
        consolidate_presentation: true,
        experimental_recover_straight_bspline_lines: false,
        experimental_recover_exact_bezier_curves: false,
        experimental_recover_v_extrusions: false,
        experimental_intern_geometric_supports: false,
        experimental_recover_partitioned_bodies: false,
        experimental_coalesce_same_support_faces: false,
        experimental_instance_translated_bspline_curves: false,
        experimental_instance_z90: false,
        experimental_instance_z90_assembly: false,
        experimental_instance_planar_positive_features: false,
        experimental_instance_spherical_caps: false,
        minify_placeholder_names: false,
        dense_ids: true,
    }
}

/// The passes of a profile.
pub open spec fn profile_options(profile: OutputProfile) -> Options {
    let compact = profile == OutputProfile::Compact;
    Options {
        experimental_recover_straight_bspline_lines: true,
        experimental_recover_exact_bezier_curves: true,
        experimental_recover_v_extrusions: true,
        experimental_intern_geometric_supports: true,
        experimental_recover_partitioned_bodies: true,
        experimental_coalesce_same_support_faces: true,
        minify_placeholder_names: true,
        experimental_instance_translated_bspline_curves: compact,
        experimental_instance_z90: compact,
        experimental_instance_planar_positive_features: compact,
        experimental_instance_spherical_caps: compact,
        ..default_options()
    }
}

impl Default for Options {
    fn default() -> (out: Options)
        ensures
            out == default_options(),
    {
        Options {
            intern_values: true,
            consolidate_presentation: true,
            experimental_recover_straight_bspline_lines: false,
            experimental_recover_exact_bezier_curves: false,
            experimental_recover_v_extrusions: false,
            experimental_intern_geometric_supports: false,
            experimental_recover_partitioned_bodies: false,
            experimental_coalesce_same_support_faces: false,
            experimental_instance_translated_bspline_curves: false,
            experimental_instance_z90: false,
            experimental_instance_z90_assembly: false,
            experimental_instance_planar_positive_features: false,
            experimental_instance_spherical_caps: false,
            minify_placeholder_names: false,
            dense_ids: true,
        }
    }
}

impl Options {
    /// The passes of a profile.
    pub fn for_profile(profile: OutputProfile) -> (out: Options)
        ensures
            out == profile_options(profile),
    {
        let mut options = Options {
            experimental_recover_straight_bspline_lines: true,
            experimental_recover_exact_bezier_curves: true,
            experimental_recover_v_extrusions: true,
            experimental_intern_geometric_supports: true,
            experimental_recover_partitioned_bodies: true,
            experimental_coalesce_same_support_faces: true,
            minify_placeholder_names: true,
            ..Options::default()
        };
        if profile == OutputProfile::Compact {
            options.experimental_instance_translated_bspline_curves = true;
            options.experimental_instance_z90 = true;
            options.experimental_instance_planar_positive_features = true;
            options.experimental_instance_spherical_caps = true;
        }
        options
    }
}

/// Whether a run makes structure that some importers do not read: mapped items or curve
/// replicas.
pub open spec fn instancing(options: Options) -> bool {
    ||| options.experimental_instance_translated_bspline_curves
    ||| options.experimental_instance_z90
    ||| options.experimental_instance_z90_assembly
    ||| options.experimental_instance_planar_positive_features
    ||| options.experimental_instance_spherical_caps
}

/// The compatible profile makes no instances; the compact one does, and beyond that the two
/// do the same.
pub proof fn law_profiles()
    ensures
        !instancing(profile_options(OutputProfile::Compat)),
        instancing(profile_options(OutputProfile::Compact)),
        profile_options(OutputProfile::Compat) == (Options {
            experimental_instance_translated_bspline_curves: false,
            experimental_instance_z90: false,
            experimental_instance_planar_positive_features: false,
            experimental_instance_spherical_caps: false,
            ..profile_options(OutputProfile::Compact)
        }),
{
}

} // verus!
