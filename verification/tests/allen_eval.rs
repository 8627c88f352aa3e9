use seine_engine::allen::eval_allen;
use seine_engine::allen::AllenOp;
use seine_engine::allen::AllenOp::{
    After, Before, Coincides, During, FinishedBy, Finishes, Includes, Meets, MetBy, OverlappedBy, Overlaps,
    StartedBy, Starts,
};

/// `eval_allen(op, params, Bs, Be, As, Ae)`.
fn f(op: AllenOp, p: &[i64], bs: i64, be: i64, as_: i64, ae: i64) -> bool {
    eval_allen(op, p, bs, be, as_, ae)
}

#[test]
fn bare_matrix_fires_on_the_relation() {
    assert!(f(Meets, &[], 0, 50, 50, 90)); // Be==As
    assert!(f(MetBy, &[], 50, 90, 0, 50)); // Bs==Ae
    assert!(f(Coincides, &[], 10, 60, 10, 60)); // Bs==As & Be==Ae
    assert!(f(Overlaps, &[], 0, 50, 30, 100)); // Bs<As<Be<Ae
    assert!(f(OverlappedBy, &[], 30, 100, 0, 50)); // As<Bs<Ae<Be
    assert!(f(During, &[], 20, 80, 0, 100)); // As<Bs & Be<Ae
    assert!(f(Includes, &[], 0, 100, 20, 80)); // Bs<As & Ae<Be
    assert!(f(Starts, &[], 10, 50, 10, 90)); // Bs==As & Be<Ae
    assert!(f(StartedBy, &[], 10, 90, 10, 50)); // Bs==As & Be>Ae
    assert!(f(Finishes, &[], 50, 90, 10, 90)); // Be==Ae & Bs>As
    assert!(f(FinishedBy, &[], 10, 90, 50, 90)); // Be==Ae & Bs<As
}

#[test]
fn bare_matrix_inert_on_near_miss() {
    assert!(!f(Meets, &[], 0, 49, 50, 90)); // Be=49 != As=50
    assert!(!f(Meets, &[], 0, 51, 50, 90)); // Be=51 != As=50
    assert!(!f(During, &[], 0, 80, 0, 100)); // equal starts: not strictly inside
    assert!(!f(During, &[], 0, 100, 0, 100)); // equal bounds: not inside
    assert!(!f(Starts, &[], 10, 90, 10, 50)); // Be>Ae is startedby
    assert!(!f(Starts, &[], 11, 50, 10, 90)); // Bs!=As
    assert!(!f(Coincides, &[], 11, 60, 10, 60)); // Bs off by 1, no tolerance
}

#[test]
fn directional_not_symmetric() {
    // a during-configuration (A big, B small inside) under `includes` is
    // inert and vice-versa.
    assert!(!f(Includes, &[], 20, 80, 0, 100));
    assert!(!f(During, &[], 0, 100, 20, 80));
}

#[test]
fn parameterized_forms() {
    // during[min,max]: dS,dE both in [lo,hi], inclusive.
    assert!(f(During, &[20, 25], 20, 80, 0, 100)); // dS=dE=20
    assert!(!f(During, &[21, 25], 20, 80, 0, 100)); // 20 < min 21
    // during[lo1,hi1,lo2,hi2]: split start/end windows.
    assert!(f(During, &[15, 25, 25, 35], 20, 70, 0, 100)); // dS=20, dE=30
    // overlaps[max]/[min,max] bound the overlap Be-As (structural still holds).
    assert!(!f(Overlaps, &[15], 0, 50, 30, 100)); // overlap 20 > 15
    assert!(f(Overlaps, &[10, 25], 0, 50, 30, 100)); // 10<=20<=25
    assert!(!f(Overlaps, &[21, 25], 0, 50, 30, 100)); // 20 < min 21
    // meets[dev]/coincides[sDev,eDev] tolerances, inclusive.
    assert!(f(Meets, &[1], 0, 49, 50, 90)); // |49-50|=1<=1
    assert!(!f(Coincides, &[0, 1], 11, 60, 10, 60)); // |Bs-As|=1 > sDev 0
    assert!(f(Coincides, &[1, 1], 11, 61, 10, 60)); // both diffs 1 <= 1
}

#[test]
fn after_before_distance_and_point_reduction() {
    // after: d = Bs - Ae in [lo,hi]. Interval anchor A(ts=100,dur=30)
    // => Ae=130; B(ts=200) => d=70 in [60,80] fires.
    assert!(f(After, &[60, 80], 200, 230, 100, 130));
    // point anchor (dur=0 => Ae=As=100) => d=100 outside [60,80]: inert;
    // only the earlier event's duration enters.
    assert!(!f(After, &[60, 80], 200, 200, 100, 100));
    // before: d = As - Be in [lo,hi].
    assert!(f(Before, &[60, 80], 100, 130, 200, 230)); // 200-130=70
    // dur=0 both sides: every op reduces to its point behavior:
    // coincides on identical points fires, during is inert.
    assert!(f(Coincides, &[], 10, 10, 10, 10));
    assert!(!f(During, &[], 10, 10, 10, 10));
}

#[test]
fn converse_relations_agree() {
    // Reading the relation from the anchor's side gives the converse.
    assert_eq!(f(During, &[], 20, 80, 0, 100), f(Includes, &[], 0, 100, 20, 80));
    assert_eq!(f(Overlaps, &[], 0, 50, 30, 100), f(OverlappedBy, &[], 30, 100, 0, 50));
    assert_eq!(f(After, &[60, 80], 200, 230, 100, 130), f(Before, &[60, 80], 100, 130, 200, 230));
    assert_eq!(f(Meets, &[], 0, 50, 50, 90), f(MetBy, &[], 50, 90, 0, 50));
}

#[test]
fn point_events_reduce() {
    assert!(f(Meets, &[], 7, 7, 7, 7));
    assert!(!f(Meets, &[], 7, 7, 8, 8));
    assert!(!f(Starts, &[], 7, 7, 7, 7));
    assert!(!f(Finishes, &[], 7, 7, 7, 7));
}
