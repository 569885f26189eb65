use graph_metrics::report::report;

#[test]
fn report_has_one_line_for_each_metric_in_order() {
    assert_eq!(
        report("0.5", "2", "1.6666666666666667"),
        "AVERAGE_CLUSTERING=0.5\nAVERAGE_DEGREE=2\nAVERAGE_DISTANCE=1.6666666666666667\n"
    );
}

#[test]
fn report_takes_the_values_as_they_are_written() {
    assert_eq!(
        report("NaN", "", "a=b"),
        "AVERAGE_CLUSTERING=NaN\nAVERAGE_DEGREE=\nAVERAGE_DISTANCE=a=b\n"
    );
}
