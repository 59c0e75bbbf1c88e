use flightflow::graph::construct_graph;
use flightflow::graph::FlowGraph;
use flightflow::record::activity_type_from_label;
use flightflow::record::ActivityRecord;
use flightflow::record::ActivityType;

fn rec(region: &str, t: ActivityType, count: u32, period: &str) -> ActivityRecord {
    ActivityRecord {
        geo_region: region.to_string(),
        activity_type: t,
        passenger_count: count,
        activity_period: period.to_string(),
    }
}

fn labeled_edges(g: &FlowGraph) -> Vec<(String, String, u32)> {
    let labels = g.node_labels();
    g.edge_triples()
        .into_iter()
        .map(|(a, b, w)| (labels[a].clone(), labels[b].clone(), w))
        .collect()
}

#[test]
fn construct_graph_classifies_and_accumulates() {
    let records = vec![
        rec("Asia", ActivityType::Enplaned, 100, "202301"),
        rec("Asia", ActivityType::Deplaned, 50, "202302"),
        rec("Asia", ActivityType::Enplaned, 25, "202303"),
        rec("Europe", ActivityType::Unknown, 999, "202303"),
    ];
    let g = construct_graph(&records);
    let mut labels = g.node_labels();
    labels.sort();
    assert_eq!(labels, vec!["Asia".to_string(), "US".to_string()]);
    let mut edges = labeled_edges(&g);
    edges.sort();
    assert_eq!(
        edges,
        vec![
            ("Asia".to_string(), "US".to_string(), 50),
            ("US".to_string(), "Asia".to_string(), 125),
        ]
    );
}

#[test]
fn construct_graph_is_order_independent() {
    let records = vec![
        rec("Asia", ActivityType::Enplaned, 100, "202301"),
        rec("Europe", ActivityType::Deplaned, 70, "202301"),
        rec("Asia", ActivityType::Enplaned, 11, "202302"),
        rec("Mexico", ActivityType::ThruTransit, 5, "202302"),
        rec("Europe", ActivityType::Unknown, 3, "202302"),
    ];
    let mut shuffled = records.clone();
    shuffled.reverse();
    shuffled.swap(0, 2);
    let g1 = construct_graph(&records);
    let g2 = construct_graph(&shuffled);
    let mut l1 = g1.node_labels();
    let mut l2 = g2.node_labels();
    l1.sort();
    l2.sort();
    assert_eq!(l1, l2);
    let mut e1 = labeled_edges(&g1);
    let mut e2 = labeled_edges(&g2);
    e1.sort();
    e2.sort();
    assert_eq!(e1, e2);
}

#[test]
fn thru_transit_concentrates_on_anchor_self_loop() {
    let records = vec![
        rec("Asia", ActivityType::ThruTransit, 10, "202301"),
        rec("Europe", ActivityType::ThruTransit, 20, "202302"),
        rec("Mexico", ActivityType::ThruTransit, 30, "202303"),
    ];
    let g = construct_graph(&records);
    assert_eq!(g.node_labels(), vec!["US".to_string()]);
    let edges = labeled_edges(&g);
    assert_eq!(edges, vec![("US".to_string(), "US".to_string(), 60)]);
}

#[test]
fn petgraph_mirror_holds_same_nodes_and_edges() {
    let records = vec![
        rec("Asia", ActivityType::Enplaned, 100, "202301"),
        rec("Asia", ActivityType::Deplaned, 50, "202302"),
        rec("Asia", ActivityType::Enplaned, 7, "202303"),
    ];
    let g = construct_graph(&records);
    assert_eq!(g.petgraph_node_count(), g.node_count());
    assert_eq!(g.petgraph_node_labels(), g.node_labels());
    assert_eq!(g.petgraph_edge_triples(), g.edge_triples());
    assert_eq!(g.node_count(), 2);
    assert_eq!(g.edge_triples().len(), 2);
    let pg = g.petgraph();
    assert_eq!(pg.node_count(), 2);
    assert_eq!(pg.edge_count(), 2);
}

#[test]
fn weight_between_looks_up_accumulated_edges() {
    let records = vec![
        rec("Asia", ActivityType::Enplaned, 100, "202301"),
        rec("Asia", ActivityType::Enplaned, 50, "202302"),
    ];
    let g = construct_graph(&records);
    assert_eq!(
        g.weight_between(&"US".to_string(), &"Asia".to_string()),
        Some(150)
    );
    assert_eq!(g.weight_between(&"Asia".to_string(), &"US".to_string()), None);
}

#[test]
fn from_parts_validates_structure() {
    let ok = FlowGraph::from_parts(
        vec!["US".to_string(), "Asia".to_string()],
        vec![(0, 1, 10)],
    );
    assert!(ok.is_some());
    let dup_label = FlowGraph::from_parts(
        vec!["US".to_string(), "US".to_string()],
        vec![],
    );
    assert!(dup_label.is_none());
    let bad_endpoint = FlowGraph::from_parts(vec!["US".to_string()], vec![(0, 1, 10)]);
    assert!(bad_endpoint.is_none());
    let dup_pair = FlowGraph::from_parts(
        vec!["US".to_string(), "Asia".to_string()],
        vec![(0, 1, 10), (0, 1, 20)],
    );
    assert!(dup_pair.is_none());
    let too_heavy = FlowGraph::from_parts(
        vec!["US".to_string(), "Asia".to_string()],
        vec![(0, 1, u32::MAX), (1, 0, 1)],
    );
    assert!(too_heavy.is_none());
}

#[test]
fn find_node_maps_labels_to_interned_indices() {
    let records = vec![
        rec("Asia", ActivityType::Enplaned, 100, "202301"),
        rec("Europe", ActivityType::Deplaned, 50, "202301"),
    ];
    let g = construct_graph(&records);
    let labels = g.node_labels();
    let asia = g.find_node(&"Asia".to_string()).unwrap();
    assert_eq!(labels[asia], "Asia");
    assert_eq!(g.find_node(&"Nowhere".to_string()), None);
}

#[test]
fn zero_count_record_creates_zero_weight_edge() {
    let records = vec![rec("Asia", ActivityType::Enplaned, 0, "202301")];
    let g = construct_graph(&records);
    assert_eq!(
        g.weight_between(&"US".to_string(), &"Asia".to_string()),
        Some(0)
    );
}

#[test]
fn activity_labels_classify_as_expected() {
    assert_eq!(activity_type_from_label("Enplaned"), ActivityType::Enplaned);
    assert_eq!(activity_type_from_label("Deplaned"), ActivityType::Deplaned);
    assert_eq!(
        activity_type_from_label("Thru/Transit"),
        ActivityType::ThruTransit
    );
    assert_eq!(activity_type_from_label("Charter"), ActivityType::Unknown);
    assert_eq!(activity_type_from_label(""), ActivityType::Unknown);
}
