//! What a cleaning run counts.

use vstd::prelude::*;

use crate::counts::TypeCounts;

verus! {

/// What the experimental passes have done.
#[derive(Debug, Clone, Copy, PartialEq, Eq, Structural)]
pub struct PassCounters {
    pub straight_bspline_lines_recovered: usize,
    pub straight_bspline_direction_groups: usize,
    pub straight_bspline_points_removed: usize,
    pub exact_bezier_curves_recovered: usize,
    pub v_extrusion_surfaces_recovered: usize,
    pub v_extrusion_rational_surfaces_recovered: usize,
    pub v_extrusion_profile_curves_created: usize,
    pub v_extrusion_points_removed: usize,
    pub geometric_supports_merged: usize,
    pub geometric_support_entities_removed: usize,
    pub geometric_planes_merged: usize,
    pub geometric_lines_merged: usize,
    pub geometric_cylinders_merged: usize,
    pub partition_components_recovered: usize,
    pub partition_solids_merged: usize,
    pub partition_interfaces_removed: usize,
    pub partition_styles_retargeted: usize,
    pub partition_entities_removed: usize,
    pub face_coalesce_groups: usize,
    pub face_coalesce_faces_merged: usize,
    pub face_coalesce_faces_removed: usize,
    pub face_coalesce_internal_edges_removed: usize,
    pub face_coalesce_styles_removed: usize,
    pub face_coalesce_entities_removed: usize,
    pub curve_replica_families: usize,
    pub curve_replicas: usize,
    pub curve_replica_direct_aliases: usize,
    pub curve_replica_transforms: usize,
    pub curve_replica_entities_removed: usize,
    pub instance_groups: usize,
    pub instanced_solids: usize,
    pub instance_entities_removed: usize,
    pub instance_styles_replaced: usize,
    pub planar_feature_arrays: usize,
    pub planar_feature_families: usize,
    pub planar_feature_instances: usize,
    pub planar_feature_entities_removed: usize,
    pub planar_feature_styles_replaced: usize,
    pub spherical_cap_arrays: usize,
    pub spherical_cap_instances: usize,
    pub spherical_cap_entities_removed: usize,
    pub spherical_cap_styles_replaced: usize,
}

/// No pass has done anything.
pub open spec fn no_counts() -> PassCounters {
    PassCounters {
        straight_bspline_lines_recovered: 0,
        straight_bspline_direction_groups: 0,
        straight_bspline_points_removed: 0,
        exact_bezier_curves_recovered: 0,
        v_extrusion_surfaces_recovered: 0,
        v_extrusion_rational_surfaces_recovered: 0,
        v_extrusion_profile_curves_created: 0,
        v_extrusion_points_removed: 0,
        geometric_supports_merged: 0,
        geometric_support_entities_removed: 0,
        geometric_planes_merged: 0,
        geometric_lines_merged: 0,
        geometric_cylinders_merged: 0,
        partition_components_recovered: 0,
        partition_solids_merged: 0,
        partition_interfaces_removed: 0,
        partition_styles_retargeted: 0,
        partition_entities_removed: 0,
        face_coalesce_groups: 0,
        face_coalesce_faces_merged: 0,
        face_coalesce_faces_removed: 0,
        face_coalesce_internal_edges_removed: 0,
        face_coalesce_styles_removed: 0,
        face_coalesce_entities_removed: 0,
        curve_replica_families: 0,
        curve_replicas: 0,
        curve_replica_direct_aliases: 0,
        curve_replica_transforms: 0,
        curve_replica_entities_removed: 0,
        instance_groups: 0,
        instanced_solids: 0,
        instance_entities_removed: 0,
        instance_styles_replaced: 0,
        planar_feature_arrays: 0,
        planar_feature_families: 0,
        planar_feature_instances: 0,
        planar_feature_entities_removed: 0,
        planar_feature_styles_replaced: 0,
        spherical_cap_arrays: 0,
        spherical_cap_instances: 0,
        spherical_cap_entities_removed: 0,
        spherical_cap_styles_replaced: 0,
    }
}

/// Two counts added, field by field.
#[verifier::opaque]
pub open spec fn added(a: PassCounters, b: PassCounters) -> PassCounters {
    PassCounters {
        straight_bspline_lines_recovered: a.straight_bspline_lines_recovered.saturating_add(
            b.straight_bspline_lines_recovered,
        ),
        straight_bspline_direction_groups: a.straight_bspline_direction_groups.saturating_add(
            b.straight_bspline_direction_groups,
        ),
        straight_bspline_points_removed: a.straight_bspline_points_removed.saturating_add(
            b.straight_bspline_points_removed,
        ),
        exact_bezier_curves_recovered: a.exact_bezier_curves_recovered.saturating_add(
            b.exact_bezier_curves_recovered,
        ),
        v_extrusion_surfaces_recovered: a.v_extrusion_surfaces_recovered.saturating_add(
            b.v_extrusion_surfaces_recovered,
        ),
        v_extrusion_rational_surfaces_recovered: a.v_extrusion_rational_surfaces_recovered.saturating_add(
            b.v_extrusion_rational_surfaces_recovered,
        ),
        v_extrusion_profile_curves_created: a.v_extrusion_profile_curves_created.saturating_add(
            b.v_extrusion_profile_curves_created,
        ),
        v_extrusion_points_removed: a.v_extrusion_points_removed.saturating_add(
            b.v_extrusion_points_removed,
        ),
        geometric_supports_merged: a.geometric_supports_merged.saturating_add(
            b.geometric_supports_merged,
        ),
        geometric_support_entities_removed: a.geometric_support_entities_removed.saturating_add(
            b.geometric_support_entities_removed,
        ),
        geometric_planes_merged: a.geometric_planes_merged.saturating_add(
            b.geometric_planes_merged,
        ),
        geometric_lines_merged: a.geometric_lines_merged.saturating_add(
            b.geometric_lines_merged,
        ),
        geometric_cylinders_merged: a.geometric_cylinders_merged.saturating_add(
            b.geometric_cylinders_merged,
        ),
        partition_components_recovered: a.partition_components_recovered.saturating_add(
            b.partition_components_recovered,
        ),
        partition_solids_merged: a.partition_solids_merged.saturating_add(
            b.partition_solids_merged,
        ),
        partition_interfaces_removed: a.partition_interfaces_removed.saturating_add(
            b.partition_interfaces_removed,
        ),
        partition_styles_retargeted: a.partition_styles_retargeted.saturating_add(
            b.partition_styles_retargeted,
        ),
        partition_entities_removed: a.partition_entities_removed.saturating_add(
            b.partition_entities_removed,
        ),
        face_coalesce_groups: a.face_coalesce_groups.saturating_add(
            b.face_coalesce_groups,
        ),
        face_coalesce_faces_merged: a.face_coalesce_faces_merged.saturating_add(
            b.face_coalesce_faces_merged,
        ),
        face_coalesce_faces_removed: a.face_coalesce_faces_removed.saturating_add(
            b.face_coalesce_faces_removed,
        ),
        face_coalesce_internal_edges_removed: a.face_coalesce_internal_edges_removed.saturating_add(
            b.face_coalesce_internal_edges_removed,
        ),
        face_coalesce_styles_removed: a.face_coalesce_styles_removed.saturating_add(
            b.face_coalesce_styles_removed,
        ),
        face_coalesce_entities_removed: a.face_coalesce_entities_removed.saturating_add(
            b.face_coalesce_entities_removed,
        ),
        curve_replica_families: a.curve_replica_families.saturating_add(
            b.curve_replica_families,
        ),
        curve_replicas: a.curve_replicas.saturating_add(
            b.curve_replicas,
        ),
        curve_replica_direct_aliases: a.curve_replica_direct_aliases.saturating_add(
            b.curve_replica_direct_aliases,
        ),
        curve_replica_transforms: a.curve_replica_transforms.saturating_add(
            b.curve_replica_transforms,
        ),
        curve_replica_entities_removed: a.curve_replica_entities_removed.saturating_add(
            b.curve_replica_entities_removed,
        ),
        instance_groups: a.instance_groups.saturating_add(
            b.instance_groups,
        ),
        instanced_solids: a.instanced_solids.saturating_add(
            b.instanced_solids,
        ),
        instance_entities_removed: a.instance_entities_removed.saturating_add(
            b.instance_entities_removed,
        ),
        instance_styles_replaced: a.instance_styles_replaced.saturating_add(
            b.instance_styles_replaced,
        ),
        planar_feature_arrays: a.planar_feature_arrays.saturating_add(
            b.planar_feature_arrays,
        ),
        planar_feature_families: a.planar_feature_families.saturating_add(
            b.planar_feature_families,
        ),
        planar_feature_instances: a.planar_feature_instances.saturating_add(
            b.planar_feature_instances,
        ),
        planar_feature_entities_removed: a.planar_feature_entities_removed.saturating_add(
            b.planar_feature_entities_removed,
        ),
        planar_feature_styles_replaced: a.planar_feature_styles_replaced.saturating_add(
            b.planar_feature_styles_replaced,
        ),
        spherical_cap_arrays: a.spherical_cap_arrays.saturating_add(
            b.spherical_cap_arrays,
        ),
        spherical_cap_instances: a.spherical_cap_instances.saturating_add(
            b.spherical_cap_instances,
        ),
        spherical_cap_entities_removed: a.spherical_cap_entities_removed.saturating_add(
            b.spherical_cap_entities_removed,
        ),
        spherical_cap_styles_replaced: a.spherical_cap_styles_replaced.saturating_add(
            b.spherical_cap_styles_replaced,
        ),
    }
}

/// Whether a pass has rewritten entities such that values may have become equal.
pub open spec fn rewrote(counters: PassCounters) -> bool {
    ||| counters.straight_bspline_lines_recovered > 0
    ||| counters.v_extrusion_surfaces_recovered > 0
    ||| counters.geometric_supports_merged > 0
    ||| counters.partition_components_recovered > 0
    ||| counters.face_coalesce_groups > 0
    ||| counters.curve_replicas > 0
    ||| counters.curve_replica_direct_aliases > 0
    ||| counters.instance_groups > 0
    ||| counters.planar_feature_arrays > 0
    ||| counters.spherical_cap_arrays > 0
}

impl PassCounters {
    pub fn new() -> (out: PassCounters)
        ensures
            out == no_counts(),
    {
        PassCounters {
            straight_bspline_lines_recovered: 0,
            straight_bspline_direction_groups: 0,
            straight_bspline_points_removed: 0,
            exact_bezier_curves_recovered: 0,
            v_extrusion_surfaces_recovered: 0,
            v_extrusion_rational_surfaces_recovered: 0,
            v_extrusion_profile_curves_created: 0,
            v_extrusion_points_removed: 0,
            geometric_supports_merged: 0,
            geometric_support_entities_removed: 0,
            geometric_planes_merged: 0,
            geometric_lines_merged: 0,
            geometric_cylinders_merged: 0,
            partition_components_recovered: 0,
            partition_solids_merged: 0,
            partition_interfaces_removed: 0,
            partition_styles_retargeted: 0,
            partition_entities_removed: 0,
            face_coalesce_groups: 0,
            face_coalesce_faces_merged: 0,
            face_coalesce_faces_removed: 0,
            face_coalesce_internal_edges_removed: 0,
            face_coalesce_styles_removed: 0,
            face_coalesce_entities_removed: 0,
            curve_replica_families: 0,
            curve_replicas: 0,
            curve_replica_direct_aliases: 0,
            curve_replica_transforms: 0,
            curve_replica_entities_removed: 0,
            instance_groups: 0,
            instanced_solids: 0,
            instance_entities_removed: 0,
            instance_styles_replaced: 0,
            planar_feature_arrays: 0,
            planar_feature_families: 0,
            planar_feature_instances: 0,
            planar_feature_entities_removed: 0,
            planar_feature_styles_replaced: 0,
            spherical_cap_arrays: 0,
            spherical_cap_instances: 0,
            spherical_cap_entities_removed: 0,
            spherical_cap_styles_replaced: 0,
        }
    }

    /// Adds counts, field by field.
    pub fn plus(&self, other: &PassCounters) -> (out: PassCounters)
        ensures
            out == added(*self, *other),
    {
        reveal(added);
        PassCounters {
            straight_bspline_lines_recovered: self.straight_bspline_lines_recovered.saturating_add(
                other.straight_bspline_lines_recovered,
            ),
            straight_bspline_direction_groups: self.straight_bspline_direction_groups.saturating_add(
                other.straight_bspline_direction_groups,
            ),
            straight_bspline_points_removed: self.straight_bspline_points_removed.saturating_add(
                other.straight_bspline_points_removed,
            ),
            exact_bezier_curves_recovered: self.exact_bezier_curves_recovered.saturating_add(
                other.exact_bezier_curves_recovered,
            ),
            v_extrusion_surfaces_recovered: self.v_extrusion_surfaces_recovered.saturating_add(
                other.v_extrusion_surfaces_recovered,
            ),
            v_extrusion_rational_surfaces_recovered: self.v_extrusion_rational_surfaces_recovered.saturating_add(
                other.v_extrusion_rational_surfaces_recovered,
            ),
            v_extrusion_profile_curves_created: self.v_extrusion_profile_curves_created.saturating_add(
                other.v_extrusion_profile_curves_created,
            ),
            v_extrusion_points_removed: self.v_extrusion_points_removed.saturating_add(
                other.v_extrusion_points_removed,
            ),
            geometric_supports_merged: self.geometric_supports_merged.saturating_add(
                other.geometric_supports_merged,
            ),
            geometric_support_entities_removed: self.geometric_support_entities_removed.saturating_add(
                other.geometric_support_entities_removed,
            ),
            geometric_planes_merged: self.geometric_planes_merged.saturating_add(
                other.geometric_planes_merged,
            ),
            geometric_lines_merged: self.geometric_lines_merged.saturating_add(
                other.geometric_lines_merged,
            ),
            geometric_cylinders_merged: self.geometric_cylinders_merged.saturating_add(
                other.geometric_cylinders_merged,
            ),
            partition_components_recovered: self.partition_components_recovered.saturating_add(
                other.partition_components_recovered,
            ),
            partition_solids_merged: self.partition_solids_merged.saturating_add(
                other.partition_solids_merged,
            ),
            partition_interfaces_removed: self.partition_interfaces_removed.saturating_add(
                other.partition_interfaces_removed,
            ),
            partition_styles_retargeted: self.partition_styles_retargeted.saturating_add(
                other.partition_styles_retargeted,
            ),
            partition_entities_removed: self.partition_entities_removed.saturating_add(
                other.partition_entities_removed,
            ),
            face_coalesce_groups: self.face_coalesce_groups.saturating_add(
                other.face_coalesce_groups,
            ),
            face_coalesce_faces_merged: self.face_coalesce_faces_merged.saturating_add(
                other.face_coalesce_faces_merged,
            ),
            face_coalesce_faces_removed: self.face_coalesce_faces_removed.saturating_add(
                other.face_coalesce_faces_removed,
            ),
            face_coalesce_internal_edges_removed: self.face_coalesce_internal_edges_removed.saturating_add(
                other.face_coalesce_internal_edges_removed,
            ),
            face_coalesce_styles_removed: self.face_coalesce_styles_removed.saturating_add(
                other.face_coalesce_styles_removed,
            ),
            face_coalesce_entities_removed: self.face_coalesce_entities_removed.saturating_add(
                other.face_coalesce_entities_removed,
            ),
            curve_replica_families: self.curve_replica_families.saturating_add(
                other.curve_replica_families,
            ),
            curve_replicas: self.curve_replicas.saturating_add(
                other.curve_replicas,
            ),
            curve_replica_direct_aliases: self.curve_replica_direct_aliases.saturating_add(
                other.curve_replica_direct_aliases,
            ),
            curve_replica_transforms: self.curve_replica_transforms.saturating_add(
                other.curve_replica_transforms,
            ),
            curve_replica_entities_removed: self.curve_replica_entities_removed.saturating_add(
                other.curve_replica_entities_removed,
            ),
            instance_groups: self.instance_groups.saturating_add(
                other.instance_groups,
            ),
            instanced_solids: self.instanced_solids.saturating_add(
                other.instanced_solids,
            ),
            instance_entities_removed: self.instance_entities_removed.saturating_add(
                other.instance_entities_removed,
            ),
            instance_styles_replaced: self.instance_styles_replaced.saturating_add(
                other.instance_styles_replaced,
            ),
            planar_feature_arrays: self.planar_feature_arrays.saturating_add(
                other.planar_feature_arrays,
            ),
            planar_feature_families: self.planar_feature_families.saturating_add(
                other.planar_feature_families,
            ),
            planar_feature_instances: self.planar_feature_instances.saturating_add(
                other.planar_feature_instances,
            ),
            planar_feature_entities_removed: self.planar_feature_entities_removed.saturating_add(
                other.planar_feature_entities_removed,
            ),
            planar_feature_styles_replaced: self.planar_feature_styles_replaced.saturating_add(
                other.planar_feature_styles_replaced,
            ),
            spherical_cap_arrays: self.spherical_cap_arrays.saturating_add(
                other.spherical_cap_arrays,
            ),
            spherical_cap_instances: self.spherical_cap_instances.saturating_add(
                other.spherical_cap_instances,
            ),
            spherical_cap_entities_removed: self.spherical_cap_entities_removed.saturating_add(
                other.spherical_cap_entities_removed,
            ),
            spherical_cap_styles_replaced: self.spherical_cap_styles_replaced.saturating_add(
                other.spherical_cap_styles_replaced,
            ),
        }
    }

    /// Whether a pass has rewritten entities such that values may have become equal.
    pub fn rewrote_values(&self) -> (out: bool)
        ensures
            out == rewrote(*self),
    {
        self.straight_bspline_lines_recovered > 0 || self.v_extrusion_surfaces_recovered > 0
            || self.geometric_supports_merged > 0 || self.partition_components_recovered > 0
            || self.face_coalesce_groups > 0 || self.curve_replicas > 0
            || self.curve_replica_direct_aliases > 0 || self.instance_groups > 0
            || self.planar_feature_arrays > 0 || self.spherical_cap_arrays > 0
    }
}

/// What a cleaning run has done.
#[derive(Debug)]
pub struct Stats {
    pub input_bytes: usize,
    pub output_bytes: usize,
    pub input_entities: usize,
    pub output_entities: usize,
    pub interned_entities: usize,
    pub consolidated_entities: usize,
    pub placeholder_names_minified: usize,
    pub passes: PassCounters,
    pub interned_by_type: TypeCounts,
    pub consolidated_by_type: TypeCounts,
}

} // verus!
