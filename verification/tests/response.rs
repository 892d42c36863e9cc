use exchange_rate_path::response::best_rate_path::BestRatePath;
use exchange_rate_path::response::Response;

#[test]
fn get_path_output() {
    let rate = 10.0;
    let mut path: Vec<(String, String)> = Vec::with_capacity(4);
    path.push(("a".to_string(), "b".to_string()));
    path.push(("c".to_string(), "d".to_string()));
    path.push(("e".to_string(), "f".to_string()));
    path.push(("g".to_string(), "h".to_string()));

    let best_rate_path = BestRatePath::<f32>::new(rate, path);

    assert_eq!(
        best_rate_path.get_path_output(),
        String::from("<a, b>\n<c, d>\n<e, f>\n<g, h>\n")
    );
}

#[test]
fn get_output() {
    let rate = 10.2;
    let mut path: Vec<(String, String)> = Vec::with_capacity(4);
    path.push(("a".to_string(), "b".to_string()));
    path.push(("c".to_string(), "d".to_string()));
    path.push(("e".to_string(), "f".to_string()));
    path.push(("g".to_string(), "h".to_string()));

    let best_rate_path = BestRatePath::<f32>::new(rate, path);

    assert_eq!(
        best_rate_path.get_output(),
        String::from(
            "BEST_RATES_BEGIN <a> <b> <g> <h> <10.2>\n\
             <a, b>\n\
             <c, d>\n\
             <e, f>\n\
             <g, h>\n\
             BEST_RATES_END\n"
        )
    );
}

#[test]
fn get_output_of_a_path_of_one_node_is_empty() {
    let path = vec![("a".to_string(), "b".to_string())];
    let best_rate_path = BestRatePath::<f32>::new(1.0, path);

    assert_eq!(best_rate_path.get_output(), String::new());
    assert_eq!(best_rate_path.get_path_output(), String::from("<a, b>\n"));
}

#[test]
fn start_and_end_node() {
    let path = vec![
        ("a".to_string(), "b".to_string()),
        ("c".to_string(), "d".to_string()),
    ];
    let best_rate_path = BestRatePath::<u64>::new(3, path);

    assert_eq!(best_rate_path.get_rate(), &3);
    assert_eq!(best_rate_path.get_path().len(), 2);
    assert_eq!(best_rate_path.get_start_node(), Some(&("a".to_string(), "b".to_string())));
    assert_eq!(best_rate_path.get_end_node(), Some(&("c".to_string(), "d".to_string())));

    let nowhere = BestRatePath::<u64>::new(3, Vec::new());
    assert_eq!(nowhere.get_start_node(), None);
    assert_eq!(nowhere.get_end_node(), None);
}

#[test]
fn response_output_joins_the_answers() {
    let mut response = Response::<u64>::new();
    assert_eq!(response.get_output(), String::new());

    let first = vec![("a".to_string(), "b".to_string()), ("c".to_string(), "d".to_string())];
    let second = vec![("e".to_string(), "f".to_string()), ("g".to_string(), "h".to_string())];
    response.add_best_rate_path(BestRatePath::new(2, first));
    response.add_best_rate_path(BestRatePath::new(7, second));

    assert_eq!(response.get_best_rate_path().len(), 2);
    assert_eq!(
        response.get_output(),
        String::from(
            "BEST_RATES_BEGIN <a> <b> <c> <d> <2>\n<a, b>\n<c, d>\nBEST_RATES_END\n\
             BEST_RATES_BEGIN <e> <f> <g> <h> <7>\n<e, f>\n<g, h>\nBEST_RATES_END\n"
        )
    );
}
