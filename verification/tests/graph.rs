//! Graph topology: ordering under edge mutations.

use web_audio_api::buffer::ChannelConfig;
use web_audio_api::buffer::ChannelConfigOptions;
use web_audio_api::buffer::ChannelCountMode;
use web_audio_api::buffer::ChannelInterpretation;
use web_audio_api::graph::Graph;
use web_audio_api::graph::NodeIndex;
use web_audio_api::node::Processor;

fn test_config() -> ChannelConfig {
    ChannelConfig::from(ChannelConfigOptions {
        count: 2,
        mode: ChannelCountMode::Explicit,
        interpretation: ChannelInterpretation::Speakers,
    })
}

#[test]
fn test_add_remove() {
    let config = test_config();
    let mut graph = Graph::new(Processor::Inert, config);

    graph.add_node(NodeIndex(1), Processor::Inert, 1, 1, config);
    graph.add_node(NodeIndex(2), Processor::Inert, 1, 1, config);
    graph.add_node(NodeIndex(3), Processor::Inert, 1, 1, config);

    graph.add_edge((NodeIndex(1), 0), (NodeIndex(0), 0));
    graph.add_edge((NodeIndex(2), 0), (NodeIndex(1), 0));
    graph.add_edge((NodeIndex(3), 0), (NodeIndex(0), 0));

    // sorting is not deterministic, can be either of these two
    if graph.ordered() != &vec![NodeIndex(3), NodeIndex(2), NodeIndex(1), NodeIndex(0)] {
        assert_eq!(
            graph.ordered(),
            &vec![NodeIndex(2), NodeIndex(1), NodeIndex(3), NodeIndex(0)]
        );
    }

    graph.remove_edge(NodeIndex(1), NodeIndex(0));
    assert_eq!(graph.ordered(), &vec![NodeIndex(3), NodeIndex(0)]);
}

#[test]
fn test_remove_all() {
    let config = test_config();
    let mut graph = Graph::new(Processor::Inert, config);

    graph.add_node(NodeIndex(1), Processor::Inert, 1, 1, config);
    graph.add_node(NodeIndex(2), Processor::Inert, 1, 1, config);

    graph.add_edge((NodeIndex(1), 0), (NodeIndex(0), 0));
    graph.add_edge((NodeIndex(2), 0), (NodeIndex(0), 0));
    graph.add_edge((NodeIndex(2), 0), (NodeIndex(1), 0));

    assert_eq!(
        graph.ordered(),
        &vec![NodeIndex(2), NodeIndex(1), NodeIndex(0)]
    );

    graph.remove_edges_from(NodeIndex(2));

    assert_eq!(graph.ordered(), &vec![NodeIndex(1), NodeIndex(0)]);
}

#[test]
fn test_duplicate_edges_are_idempotent() {
    let config = test_config();
    let mut graph = Graph::new(Processor::Inert, config);
    graph.add_node(NodeIndex(1), Processor::Inert, 1, 1, config);
    graph.add_edge((NodeIndex(1), 0), (NodeIndex(0), 0));
    graph.add_edge((NodeIndex(1), 0), (NodeIndex(0), 0));
    assert_eq!(graph.edges().len(), 1);
    assert_eq!(graph.ordered(), &vec![NodeIndex(1), NodeIndex(0)]);
}

#[test]
fn test_orphans_are_not_rendered() {
    let config = test_config();
    let mut graph = Graph::new(Processor::Inert, config);
    graph.add_node(NodeIndex(1), Processor::Inert, 1, 1, config);
    graph.add_node(NodeIndex(2), Processor::Inert, 1, 1, config);
    // nodes registered but never connected do not enter the order
    graph.add_edge((NodeIndex(1), 0), (NodeIndex(0), 0));
    assert_eq!(graph.ordered(), &vec![NodeIndex(1), NodeIndex(0)]);
}

#[test]
fn test_edge_to_absent_node_is_skipped() {
    let config = test_config();
    let mut graph = Graph::new(Processor::Inert, config);
    // node 7 was never registered: the edge stays but the order skips it
    graph.add_edge((NodeIndex(7), 0), (NodeIndex(0), 0));
    assert_eq!(graph.edges().len(), 1);
    assert_eq!(graph.ordered(), &vec![NodeIndex(0)]);
}
