//! The registered argument types of each geometry function, measured by
//! trying every type combination.

use vstd::prelude::*;

verus! {

/// The characters of each name.
pub open spec fn names(s: Seq<&str>) -> Seq<Seq<char>> {
    s.map_values(|x: &str| x@)
}

/// The characters of each pair of names.
pub open spec fn name_pairs(s: Seq<(&str, &str)>) -> Seq<(Seq<char>, Seq<char>)> {
    s.map_values(|x: (&str, &str)| (x.0@, x.1@))
}

/// Types `boundingBox2d` is registered for.
pub fn bounding_box_2d() -> (r: Vec<&'static str>)
    ensures
        names(r@) == seq!["Area"@, "CompoundLineString2d"@, "HybridLineString2d"@, "HybridPolygon2d"@, "Lanelet"@, "LineString2d"@, "Point2d"@, "Polygon2d"@],
{
    let r = vec!["Area", "CompoundLineString2d", "HybridLineString2d", "HybridPolygon2d", "Lanelet", "LineString2d", "Point2d", "Polygon2d"];
    assert(names(r@) =~= seq!["Area"@, "CompoundLineString2d"@, "HybridLineString2d"@, "HybridPolygon2d"@, "Lanelet"@, "LineString2d"@, "Point2d"@, "Polygon2d"@]);
    r
}

/// Types `boundingBox3d` is registered for.
pub fn bounding_box_3d() -> (r: Vec<&'static str>)
    ensures
        names(r@) == seq!["Area"@, "CompoundLineString3d"@, "HybridLineString3d"@, "HybridPolygon3d"@, "Lanelet"@, "LineString3d"@, "Point3d"@, "Polygon3d"@],
{
    let r = vec!["Area", "CompoundLineString3d", "HybridLineString3d", "HybridPolygon3d", "Lanelet", "LineString3d", "Point3d", "Polygon3d"];
    assert(names(r@) =~= seq!["Area"@, "CompoundLineString3d"@, "HybridLineString3d"@, "HybridPolygon3d"@, "Lanelet"@, "LineString3d"@, "Point3d"@, "Polygon3d"@]);
    r
}

/// Types `length` is registered for.
pub fn length() -> (r: Vec<&'static str>)
    ensures
        names(r@) == seq!["CompoundLineString2d"@, "CompoundLineString3d"@, "LineString2d"@, "LineString3d"@],
{
    let r = vec!["CompoundLineString2d", "CompoundLineString3d", "LineString2d", "LineString3d"];
    assert(names(r@) =~= seq!["CompoundLineString2d"@, "CompoundLineString3d"@, "LineString2d"@, "LineString3d"@]);
    r
}

/// Types `area` is registered for.
pub fn area() -> (r: Vec<&'static str>)
    ensures
        names(r@) == seq!["HybridPolygon2d"@],
{
    let r = vec!["HybridPolygon2d"];
    assert(names(r@) =~= seq!["HybridPolygon2d"@]);
    r
}

/// Types `interpolatedPointAtDistance` is registered for.
pub fn interpolated_point_at_distance() -> (r: Vec<&'static str>)
    ensures
        names(r@) == seq!["CompoundLineString2d"@, "CompoundLineString3d"@, "LineString2d"@, "LineString3d"@],
{
    let r = vec!["CompoundLineString2d", "CompoundLineString3d", "LineString2d", "LineString3d"];
    assert(names(r@) =~= seq!["CompoundLineString2d"@, "CompoundLineString3d"@, "LineString2d"@, "LineString3d"@]);
    r
}

/// Types `nearestPointAtDistance` is registered for.
pub fn nearest_point_at_distance() -> (r: Vec<&'static str>)
    ensures
        names(r@) == seq!["CompoundLineString2d"@, "CompoundLineString3d"@, "LineString2d"@, "LineString3d"@],
{
    let r = vec!["CompoundLineString2d", "CompoundLineString3d", "LineString2d", "LineString3d"];
    assert(names(r@) =~= seq!["CompoundLineString2d"@, "CompoundLineString3d"@, "LineString2d"@, "LineString3d"@]);
    r
}

/// Type pairs `distance` is registered for.
pub fn distance() -> (r: Vec<(&'static str, &'static str)>)
    ensures
        name_pairs(r@) == seq![("Area"@, "BasicPoint2d"@), ("Area"@, "BasicPoint3d"@), ("BasicPoint2d"@, "Area"@), ("BasicPoint2d"@, "BasicPoint2d"@), ("BasicPoint2d"@, "CompoundLineString2d"@), ("BasicPoint2d"@, "Lanelet"@), ("BasicPoint2d"@, "LineString2d"@), ("BasicPoint2d"@, "Point2d"@), ("BasicPoint3d"@, "Area"@), ("BasicPoint3d"@, "BasicPoint3d"@), ("BasicPoint3d"@, "Lanelet"@), ("BasicPoint3d"@, "Point3d"@), ("CompoundLineString2d"@, "BasicPoint2d"@), ("CompoundLineString2d"@, "CompoundLineString2d"@), ("CompoundLineString2d"@, "LineString2d"@), ("CompoundLineString2d"@, "Point2d"@), ("CompoundLineString2d"@, "Polygon2d"@), ("CompoundLineString3d"@, "CompoundLineString3d"@), ("CompoundLineString3d"@, "LineString3d"@), ("CompoundLineString3d"@, "Point3d"@), ("CompoundPolygon2d"@, "Polygon2d"@), ("HybridLineString2d"@, "HybridLineString2d"@), ("HybridLineString2d"@, "HybridPolygon2d"@), ("HybridLineString2d"@, "Point2d"@), ("HybridLineString3d"@, "HybridLineString3d"@), ("HybridLineString3d"@, "Point3d"@), ("HybridPolygon2d"@, "BasicPoint2d"@), ("HybridPolygon2d"@, "HybridLineString2d"@), ("HybridPolygon2d"@, "HybridPolygon2d"@), ("HybridPolygon2d"@, "Polygon2d"@), ("Lanelet"@, "BasicPoint2d"@), ("Lanelet"@, "BasicPoint3d"@), ("Lanelet"@, "Lanelet"@), ("LineString2d"@, "BasicPoint2d"@), ("LineString2d"@, "CompoundLineString2d"@), ("LineString2d"@, "LineString2d"@), ("LineString2d"@, "Point2d"@), ("LineString2d"@, "Polygon2d"@), ("LineString3d"@, "CompoundLineString3d"@), ("LineString3d"@, "LineString3d"@), ("LineString3d"@, "Point3d"@), ("Point2d"@, "BasicPoint2d"@), ("Point2d"@, "CompoundLineString2d"@), ("Point2d"@, "HybridLineString2d"@), ("Point2d"@, "LineString2d"@), ("Point2d"@, "Point2d"@), ("Point3d"@, "BasicPoint3d"@), ("Point3d"@, "CompoundLineString3d"@), ("Point3d"@, "HybridLineString3d"@), ("Point3d"@, "LineString3d"@), ("Point3d"@, "Point3d"@), ("Polygon2d"@, "BasicPoint2d"@), ("Polygon2d"@, "CompoundLineString2d"@), ("Polygon2d"@, "HybridPolygon2d"@), ("Polygon2d"@, "LineString2d"@), ("Polygon2d"@, "Point2d"@), ("Polygon2d"@, "Polygon2d"@)],
{
    let r = vec![("Area", "BasicPoint2d"), ("Area", "BasicPoint3d"), ("BasicPoint2d", "Area"), ("BasicPoint2d", "BasicPoint2d"), ("BasicPoint2d", "CompoundLineString2d"), ("BasicPoint2d", "Lanelet"), ("BasicPoint2d", "LineString2d"), ("BasicPoint2d", "Point2d"), ("BasicPoint3d", "Area"), ("BasicPoint3d", "BasicPoint3d"), ("BasicPoint3d", "Lanelet"), ("BasicPoint3d", "Point3d"), ("CompoundLineString2d", "BasicPoint2d"), ("CompoundLineString2d", "CompoundLineString2d"), ("CompoundLineString2d", "LineString2d"), ("CompoundLineString2d", "Point2d"), ("CompoundLineString2d", "Polygon2d"), ("CompoundLineString3d", "CompoundLineString3d"), ("CompoundLineString3d", "LineString3d"), ("CompoundLineString3d", "Point3d"), ("CompoundPolygon2d", "Polygon2d"), ("HybridLineString2d", "HybridLineString2d"), ("HybridLineString2d", "HybridPolygon2d"), ("HybridLineString2d", "Point2d"), ("HybridLineString3d", "HybridLineString3d"), ("HybridLineString3d", "Point3d"), ("HybridPolygon2d", "BasicPoint2d"), ("HybridPolygon2d", "HybridLineString2d"), ("HybridPolygon2d", "HybridPolygon2d"), ("HybridPolygon2d", "Polygon2d"), ("Lanelet", "BasicPoint2d"), ("Lanelet", "BasicPoint3d"), ("Lanelet", "Lanelet"), ("LineString2d", "BasicPoint2d"), ("LineString2d", "CompoundLineString2d"), ("LineString2d", "LineString2d"), ("LineString2d", "Point2d"), ("LineString2d", "Polygon2d"), ("LineString3d", "CompoundLineString3d"), ("LineString3d", "LineString3d"), ("LineString3d", "Point3d"), ("Point2d", "BasicPoint2d"), ("Point2d", "CompoundLineString2d"), ("Point2d", "HybridLineString2d"), ("Point2d", "LineString2d"), ("Point2d", "Point2d"), ("Point3d", "BasicPoint3d"), ("Point3d", "CompoundLineString3d"), ("Point3d", "HybridLineString3d"), ("Point3d", "LineString3d"), ("Point3d", "Point3d"), ("Polygon2d", "BasicPoint2d"), ("Polygon2d", "CompoundLineString2d"), ("Polygon2d", "HybridPolygon2d"), ("Polygon2d", "LineString2d"), ("Polygon2d", "Point2d"), ("Polygon2d", "Polygon2d")];
    assert(name_pairs(r@) =~= seq![("Area"@, "BasicPoint2d"@), ("Area"@, "BasicPoint3d"@), ("BasicPoint2d"@, "Area"@), ("BasicPoint2d"@, "BasicPoint2d"@), ("BasicPoint2d"@, "CompoundLineString2d"@), ("BasicPoint2d"@, "Lanelet"@), ("BasicPoint2d"@, "LineString2d"@), ("BasicPoint2d"@, "Point2d"@), ("BasicPoint3d"@, "Area"@), ("BasicPoint3d"@, "BasicPoint3d"@), ("BasicPoint3d"@, "Lanelet"@), ("BasicPoint3d"@, "Point3d"@), ("CompoundLineString2d"@, "BasicPoint2d"@), ("CompoundLineString2d"@, "CompoundLineString2d"@), ("CompoundLineString2d"@, "LineString2d"@), ("CompoundLineString2d"@, "Point2d"@), ("CompoundLineString2d"@, "Polygon2d"@), ("CompoundLineString3d"@, "CompoundLineString3d"@), ("CompoundLineString3d"@, "LineString3d"@), ("CompoundLineString3d"@, "Point3d"@), ("CompoundPolygon2d"@, "Polygon2d"@), ("HybridLineString2d"@, "HybridLineString2d"@), ("HybridLineString2d"@, "HybridPolygon2d"@), ("HybridLineString2d"@, "Point2d"@), ("HybridLineString3d"@, "HybridLineString3d"@), ("HybridLineString3d"@, "Point3d"@), ("HybridPolygon2d"@, "BasicPoint2d"@), ("HybridPolygon2d"@, "HybridLineString2d"@), ("HybridPolygon2d"@, "HybridPolygon2d"@), ("HybridPolygon2d"@, "Polygon2d"@), ("Lanelet"@, "BasicPoint2d"@), ("Lanelet"@, "BasicPoint3d"@), ("Lanelet"@, "Lanelet"@), ("LineString2d"@, "BasicPoint2d"@), ("LineString2d"@, "CompoundLineString2d"@), ("LineString2d"@, "LineString2d"@), ("LineString2d"@, "Point2d"@), ("LineString2d"@, "Polygon2d"@), ("LineString3d"@, "CompoundLineString3d"@), ("LineString3d"@, "LineString3d"@), ("LineString3d"@, "Point3d"@), ("Point2d"@, "BasicPoint2d"@), ("Point2d"@, "CompoundLineString2d"@), ("Point2d"@, "HybridLineString2d"@), ("Point2d"@, "LineString2d"@), ("Point2d"@, "Point2d"@), ("Point3d"@, "BasicPoint3d"@), ("Point3d"@, "CompoundLineString3d"@), ("Point3d"@, "HybridLineString3d"@), ("Point3d"@, "LineString3d"@), ("Point3d"@, "Point3d"@), ("Polygon2d"@, "BasicPoint2d"@), ("Polygon2d"@, "CompoundLineString2d"@), ("Polygon2d"@, "HybridPolygon2d"@), ("Polygon2d"@, "LineString2d"@), ("Polygon2d"@, "Point2d"@), ("Polygon2d"@, "Polygon2d"@)]);
    r
}

/// Type pairs `equals` is registered for.
pub fn equals() -> (r: Vec<(&'static str, &'static str)>)
    ensures
        name_pairs(r@) == seq![("BasicPoint2d"@, "BasicPoint2d"@), ("BasicPoint2d"@, "Point2d"@), ("BasicPoint3d"@, "BasicPoint3d"@), ("BasicPoint3d"@, "Point3d"@), ("Point2d"@, "BasicPoint2d"@), ("Point2d"@, "Point2d"@), ("Point3d"@, "BasicPoint3d"@), ("Point3d"@, "Point3d"@)],
{
    let r = vec![("BasicPoint2d", "BasicPoint2d"), ("BasicPoint2d", "Point2d"), ("BasicPoint3d", "BasicPoint3d"), ("BasicPoint3d", "Point3d"), ("Point2d", "BasicPoint2d"), ("Point2d", "Point2d"), ("Point3d", "BasicPoint3d"), ("Point3d", "Point3d")];
    assert(name_pairs(r@) =~= seq![("BasicPoint2d"@, "BasicPoint2d"@), ("BasicPoint2d"@, "Point2d"@), ("BasicPoint3d"@, "BasicPoint3d"@), ("BasicPoint3d"@, "Point3d"@), ("Point2d"@, "BasicPoint2d"@), ("Point2d"@, "Point2d"@), ("Point3d"@, "BasicPoint3d"@), ("Point3d"@, "Point3d"@)]);
    r
}

/// Type pairs `intersects2d` is registered for.
pub fn intersects_2d() -> (r: Vec<(&'static str, &'static str)>)
    ensures
        name_pairs(r@) == seq![("Area"@, "Area"@), ("BoundingBox3d"@, "BoundingBox3d"@), ("CompoundLineString2d"@, "CompoundLineString2d"@), ("HybridLineString2d"@, "HybridLineString2d"@), ("HybridPolygon2d"@, "HybridPolygon2d"@), ("Lanelet"@, "Lanelet"@), ("LineString2d"@, "LineString2d"@), ("Polygon2d"@, "Polygon2d"@)],
{
    let r = vec![("Area", "Area"), ("BoundingBox3d", "BoundingBox3d"), ("CompoundLineString2d", "CompoundLineString2d"), ("HybridLineString2d", "HybridLineString2d"), ("HybridPolygon2d", "HybridPolygon2d"), ("Lanelet", "Lanelet"), ("LineString2d", "LineString2d"), ("Polygon2d", "Polygon2d")];
    assert(name_pairs(r@) =~= seq![("Area"@, "Area"@), ("BoundingBox3d"@, "BoundingBox3d"@), ("CompoundLineString2d"@, "CompoundLineString2d"@), ("HybridLineString2d"@, "HybridLineString2d"@), ("HybridPolygon2d"@, "HybridPolygon2d"@), ("Lanelet"@, "Lanelet"@), ("LineString2d"@, "LineString2d"@), ("Polygon2d"@, "Polygon2d"@)]);
    r
}

/// Type pairs `intersects3d` accepts when a height tolerance is given explicitly.
///
/// The linestring overloads leave the tolerance without a default, so they are
/// unreachable from a two-argument call.
pub fn intersects_3d_with_tolerance() -> (r: Vec<(&'static str, &'static str)>)
    ensures
        name_pairs(r@) == seq![("Area"@, "Area"@), ("BoundingBox3d"@, "BoundingBox3d"@), ("CompoundLineString3d"@, "CompoundLineString3d"@), ("HybridLineString3d"@, "HybridLineString3d"@), ("Lanelet"@, "Lanelet"@), ("LineString3d"@, "LineString3d"@)],
{
    let r = vec![("Area", "Area"), ("BoundingBox3d", "BoundingBox3d"), ("CompoundLineString3d", "CompoundLineString3d"), ("HybridLineString3d", "HybridLineString3d"), ("Lanelet", "Lanelet"), ("LineString3d", "LineString3d")];
    assert(name_pairs(r@) =~= seq![("Area"@, "Area"@), ("BoundingBox3d"@, "BoundingBox3d"@), ("CompoundLineString3d"@, "CompoundLineString3d"@), ("HybridLineString3d"@, "HybridLineString3d"@), ("Lanelet"@, "Lanelet"@), ("LineString3d"@, "LineString3d"@)]);
    r
}

/// Type pairs `intersects3d` is registered for.
pub fn intersects_3d() -> (r: Vec<(&'static str, &'static str)>)
    ensures
        name_pairs(r@) == seq![("BoundingBox3d"@, "BoundingBox3d"@), ("Lanelet"@, "Lanelet"@)],
{
    let r = vec![("BoundingBox3d", "BoundingBox3d"), ("Lanelet", "Lanelet")];
    assert(name_pairs(r@) =~= seq![("BoundingBox3d"@, "BoundingBox3d"@), ("Lanelet"@, "Lanelet"@)]);
    r
}

/// Type pairs `inside` is registered for.
pub fn inside() -> (r: Vec<(&'static str, &'static str)>)
    ensures
        name_pairs(r@) == seq![("Lanelet"@, "BasicPoint2d"@)],
{
    let r = vec![("Lanelet", "BasicPoint2d")];
    assert(name_pairs(r@) =~= seq![("Lanelet"@, "BasicPoint2d"@)]);
    r
}

/// Type pairs `overlaps2d` is registered for.
pub fn overlaps_2d() -> (r: Vec<(&'static str, &'static str)>)
    ensures
        name_pairs(r@) == seq![("Lanelet"@, "Lanelet"@)],
{
    let r = vec![("Lanelet", "Lanelet")];
    assert(name_pairs(r@) =~= seq![("Lanelet"@, "Lanelet"@)]);
    r
}

/// Type pairs `overlaps3d` is registered for.
pub fn overlaps_3d() -> (r: Vec<(&'static str, &'static str)>)
    ensures
        name_pairs(r@) == seq![("Lanelet"@, "Lanelet"@)],
{
    let r = vec![("Lanelet", "Lanelet")];
    assert(name_pairs(r@) =~= seq![("Lanelet"@, "Lanelet"@)]);
    r
}

/// Type pairs `leftOf` is registered for.
pub fn left_of() -> (r: Vec<(&'static str, &'static str)>)
    ensures
        name_pairs(r@) == seq![("Lanelet"@, "Lanelet"@)],
{
    let r = vec![("Lanelet", "Lanelet")];
    assert(name_pairs(r@) =~= seq![("Lanelet"@, "Lanelet"@)]);
    r
}

/// Type pairs `rightOf` is registered for.
pub fn right_of() -> (r: Vec<(&'static str, &'static str)>)
    ensures
        name_pairs(r@) == seq![("Lanelet"@, "Lanelet"@)],
{
    let r = vec![("Lanelet", "Lanelet")];
    assert(name_pairs(r@) =~= seq![("Lanelet"@, "Lanelet"@)]);
    r
}

/// Type pairs `follows` is registered for.
pub fn follows() -> (r: Vec<(&'static str, &'static str)>)
    ensures
        name_pairs(r@) == seq![("Lanelet"@, "Lanelet"@)],
{
    let r = vec![("Lanelet", "Lanelet")];
    assert(name_pairs(r@) =~= seq![("Lanelet"@, "Lanelet"@)]);
    r
}

/// Type pairs `intersectCenterlines2d` is registered for.
pub fn intersect_centerlines_2d() -> (r: Vec<(&'static str, &'static str)>)
    ensures
        name_pairs(r@) == seq![("Lanelet"@, "Lanelet"@)],
{
    let r = vec![("Lanelet", "Lanelet")];
    assert(name_pairs(r@) =~= seq![("Lanelet"@, "Lanelet"@)]);
    r
}

/// Type pairs `intersection` is registered for.
pub fn intersection() -> (r: Vec<(&'static str, &'static str)>)
    ensures
        name_pairs(r@) == seq![("CompoundLineString2d"@, "CompoundLineString2d"@), ("CompoundLineString2d"@, "LineString2d"@), ("LineString2d"@, "LineString2d"@)],
{
    let r = vec![("CompoundLineString2d", "CompoundLineString2d"), ("CompoundLineString2d", "LineString2d"), ("LineString2d", "LineString2d")];
    assert(name_pairs(r@) =~= seq![("CompoundLineString2d"@, "CompoundLineString2d"@), ("CompoundLineString2d"@, "LineString2d"@), ("LineString2d"@, "LineString2d"@)]);
    r
}

/// Type pairs `project` is registered for.
pub fn project() -> (r: Vec<(&'static str, &'static str)>)
    ensures
        name_pairs(r@) == seq![("CompoundLineString2d"@, "BasicPoint2d"@), ("CompoundLineString3d"@, "BasicPoint3d"@), ("LineString2d"@, "BasicPoint2d"@), ("LineString3d"@, "BasicPoint3d"@)],
{
    let r = vec![("CompoundLineString2d", "BasicPoint2d"), ("CompoundLineString3d", "BasicPoint3d"), ("LineString2d", "BasicPoint2d"), ("LineString3d", "BasicPoint3d")];
    assert(name_pairs(r@) =~= seq![("CompoundLineString2d"@, "BasicPoint2d"@), ("CompoundLineString3d"@, "BasicPoint3d"@), ("LineString2d"@, "BasicPoint2d"@), ("LineString3d"@, "BasicPoint3d"@)]);
    r
}

/// Type pairs `toArcCoordinates` is registered for.
pub fn to_arc_coordinates() -> (r: Vec<(&'static str, &'static str)>)
    ensures
        name_pairs(r@) == seq![("CompoundLineString2d"@, "BasicPoint2d"@), ("LineString2d"@, "BasicPoint2d"@)],
{
    let r = vec![("CompoundLineString2d", "BasicPoint2d"), ("LineString2d", "BasicPoint2d")];
    assert(name_pairs(r@) =~= seq![("CompoundLineString2d"@, "BasicPoint2d"@), ("LineString2d"@, "BasicPoint2d"@)]);
    r
}

/// Type pairs `distanceToCenterline2d` is registered for.
pub fn distance_to_centerline_2d() -> (r: Vec<(&'static str, &'static str)>)
    ensures
        name_pairs(r@) == seq![("Lanelet"@, "BasicPoint2d"@)],
{
    let r = vec![("Lanelet", "BasicPoint2d")];
    assert(name_pairs(r@) =~= seq![("Lanelet"@, "BasicPoint2d"@)]);
    r
}

/// Type pairs `distanceToCenterline3d` is registered for.
pub fn distance_to_centerline_3d() -> (r: Vec<(&'static str, &'static str)>)
    ensures
        name_pairs(r@) == seq![("Lanelet"@, "BasicPoint3d"@)],
{
    let r = vec![("Lanelet", "BasicPoint3d")];
    assert(name_pairs(r@) =~= seq![("Lanelet"@, "BasicPoint3d"@)]);
    r
}

/// Type pairs `projectedPoint3d` is registered for.
pub fn projected_point_3d() -> (r: Vec<(&'static str, &'static str)>)
    ensures
        name_pairs(r@) == seq![("CompoundLineString3d"@, "CompoundLineString3d"@), ("HybridLineString3d"@, "HybridLineString3d"@), ("LineString3d"@, "LineString3d"@)],
{
    let r = vec![("CompoundLineString3d", "CompoundLineString3d"), ("HybridLineString3d", "HybridLineString3d"), ("LineString3d", "LineString3d")];
    assert(name_pairs(r@) =~= seq![("CompoundLineString3d"@, "CompoundLineString3d"@), ("HybridLineString3d"@, "HybridLineString3d"@), ("LineString3d"@, "LineString3d"@)]);
    r
}

} // verus!
