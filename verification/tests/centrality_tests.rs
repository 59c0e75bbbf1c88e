use flightflow::centrality::analyze_centrality;
use flightflow::error::AnalysisError;
use flightflow::graph::construct_graph;
use flightflow::graph::FlowGraph;
use flightflow::record::ActivityRecord;
use flightflow::record::ActivityType;

fn rec(region: &str, t: ActivityType, count: u32, period: &str) -> ActivityRecord {
    ActivityRecord {
        geo_region: region.to_string(),
        activity_type: t,
        passenger_count: count,
        activity_period: period.to_string(),
    }
}

#[test]
fn centrality_sums_incident_weights_both_directions() {
    // US -> Asia 100, Asia -> US 50, US -> US self-loop 30
    let records = vec![
        rec("Asia", ActivityType::Enplaned, 100, "202301"),
        rec("Asia", ActivityType::Deplaned, 50, "202302"),
        rec("Asia", ActivityType::ThruTransit, 30, "202303"),
    ];
    let g = construct_graph(&records);
    let table = analyze_centrality(&g).unwrap();
    assert_eq!(table.divisor, 1);
    let mut scores: Vec<(String, u64)> = table.entries.clone();
    scores.sort();
    // the self-loop counts twice for US: 100 + 50 + 30 + 30
    assert_eq!(
        scores,
        vec![("Asia".to_string(), 150), ("US".to_string(), 210)]
    );
}

#[test]
fn centrality_of_isolated_node_is_exactly_zero() {
    let g = FlowGraph::from_parts(
        vec!["US".to_string(), "Asia".to_string(), "Island".to_string()],
        vec![(0, 1, 40), (1, 0, 2)],
    )
    .unwrap();
    let table = analyze_centrality(&g).unwrap();
    assert_eq!(table.divisor, 2);
    let isolated = table
        .entries
        .iter()
        .find(|(l, _)| l == "Island")
        .unwrap();
    assert_eq!(isolated.1, 0);
    let score = isolated.1 as f64 / table.divisor as f64;
    assert_eq!(score, 0.0);
}

#[test]
fn single_node_graph_has_undefined_centrality() {
    let records = vec![rec("Asia", ActivityType::ThruTransit, 10, "202301")];
    let g = construct_graph(&records);
    assert_eq!(g.node_count(), 1);
    assert!(matches!(
        analyze_centrality(&g),
        Err(AnalysisError::UndefinedCentrality)
    ));
}

#[test]
fn empty_graph_has_empty_centrality_table() {
    let g = construct_graph(&[]);
    let table = analyze_centrality(&g).unwrap();
    assert_eq!(table.entries.len(), 0);
    assert_eq!(table.divisor, 0);
}
