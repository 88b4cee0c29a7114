use datafusion_ray::execution::Source;
use datafusion_ray::flight::{Code, FlightHandler, FlightMethod, FlightServ, Status};
use datafusion_ray::isolator::PartitionIsolatorExec;
use datafusion_ray::context::execution_settings;
use datafusion_ray::plan::{ExecutionPlan, OperatorExec, OperatorKind, Partitioning, SchemaRef};
use datafusion_ray::processor_service::{
    bind_host, configure_ctx, connections, execution_failed, DFRayProcessorHandler,
    DFRayProcessorHandlerInner, DFRayProcessorService, ServiceClients,
};
use datafusion_ray::stage_reader::{consuming_error, DFRayStageReaderExec, StageFetch};
use datafusion_ray::ticket::{extract_ticket, FlightTicketData};
use std::collections::HashMap;

/// A leaf plan: no reader, so it needs no clients and no peers.
fn leaf_plan(partitions: usize) -> ExecutionPlan {
    ExecutionPlan::Operator(OperatorExec {
        kind: OperatorKind::Other,
        id: 0,
        partition_count: partitions,
        schema: SchemaRef { id: 0 },
        inputs: vec![],
    })
}

fn reader(stage_id: usize, partitions: usize) -> DFRayStageReaderExec {
    DFRayStageReaderExec::try_new(
        Partitioning::UnknownPartitioning(partitions),
        SchemaRef { id: 0 },
        stage_id,
    )
    .unwrap()
}

fn hosted(plan: ExecutionPlan, group: Vec<usize>) -> DFRayProcessorHandlerInner {
    let found = configure_ctx(&plan, &HashMap::new());
    DFRayProcessorHandlerInner::new(found, Ok(()), plan, group, "{}").unwrap()
}

fn handler_for(plan: ExecutionPlan) -> DFRayProcessorHandler {
    let mut h = DFRayProcessorHandler::new("[test]".to_string());
    h.update_plan(Ok(hosted(plan, vec![0]))).unwrap();
    h
}

fn ticket_for(partition: u64) -> Vec<u8> {
    FlightTicketData { dummy: false, partition }.encode_to_vec()
}

type Addrs = HashMap<usize, HashMap<usize, Vec<String>>>;

fn addrs(entries: &[(usize, usize, &[&str])]) -> Addrs {
    let mut map: Addrs = HashMap::new();
    for (stage, partition, list) in entries {
        map.entry(*stage)
            .or_default()
            .insert(*partition, list.iter().map(|a| a.to_string()).collect());
    }
    map
}

#[test]
fn a_leaf_stage_needs_no_peers() {
    let found = configure_ctx(&leaf_plan(1), &HashMap::new());
    assert!(found.addresses.is_empty());
    assert!(found.missing.is_none());
    assert!(found.clients.keys().is_empty());

    // what the plan nodes look for is there
    assert!(
        DFRayProcessorHandlerInner::new(found, Ok(()), leaf_plan(1), vec![0], "{}").is_ok()
    );
    // and the settings that keep partition isolation correct are applied
    assert!(execution_settings().iter().any(|s| {
        s.key == "datafusion.execution.enable_file_stream_work_stealing" && s.value == "false"
    }));
}

#[test]
fn a_missing_peer_address_is_reported() {
    let plan = ExecutionPlan::StageReader(reader(9, 1));
    let found = configure_ctx(&plan, &HashMap::new());
    match DFRayProcessorHandlerInner::new(found, Ok(()), plan, vec![0], "{}") {
        Err(e) => {
            assert!(e.contains("Cannot find stage addr"), "got: {e}");
            assert_eq!(e, "Cannot find stage addr 9 in {}");
        }
        Ok(_) => panic!("stage 9 has no address; expected an error"),
    }
}

#[test]
fn a_peer_that_cannot_be_reached_is_reported_first() {
    let plan = ExecutionPlan::StageReader(reader(9, 1));
    let found = configure_ctx(&plan, &HashMap::new());
    let refused = Err("connection refused".to_string());
    let e = DFRayProcessorHandlerInner::new(found, refused, plan, vec![0], "{}").unwrap_err();
    assert_eq!(e, "connection refused");
}

#[test]
fn peers_are_connected_to_once() {
    let map = addrs(&[
        (0, 0, &["a", "b"]),
        (0, 1, &["b", "a"]),
        (1, 0, &["a"]),
        (2, 0, &["c"]),
    ]);
    let found = connections(&vec![1, 0], &map);
    assert!(found.missing.is_none());
    let mut distinct = found.addresses.clone();
    distinct.sort();
    assert_eq!(distinct, vec!["a", "b"]);
    let names = |stage: usize, partition: usize| -> Vec<&str> {
        let clients = found.clients.get(stage, partition).unwrap();
        clients.iter().map(|c| found.addresses[*c].as_str()).collect()
    };
    assert_eq!(names(0, 0), vec!["a", "b"]);
    assert_eq!(names(0, 1), vec!["b", "a"]);
    assert_eq!(names(1, 0), vec!["a"]);
    let mut keys = found.clients.keys();
    keys.sort();
    assert_eq!(keys, vec![(0, 0), (0, 1), (1, 0)]);
}

#[test]
fn the_first_stage_without_addresses_ends_the_search() {
    let map = addrs(&[(0, 0, &["a"]), (2, 0, &["c"])]);
    let found = connections(&vec![0, 1, 2], &map);
    assert_eq!(found.missing, Some(1));
    assert_eq!(found.addresses, vec!["a"]);
    assert!(found.clients.get(2, 0).is_none());
}

#[test]
fn serving_a_partition_streams_its_rows() {
    let handler = handler_for(leaf_plan(2));
    match handler.get_stream(&ticket_for(1)).unwrap().unwrap() {
        Source::Operator { operator, partition } => {
            assert_eq!(operator.partition_count, 2);
            assert_eq!(partition, 1);
        }
        other => panic!("expected the leaf, got {other:?}"),
    }
}

#[test]
fn a_partition_that_does_not_exist_is_an_error() {
    let isolated = ExecutionPlan::PartitionIsolator(PartitionIsolatorExec::new(leaf_plan(1), 1));
    let handler = handler_for(isolated);
    let refused = match handler.get_stream(&ticket_for(99)).unwrap() {
        Err(e) => e,
        Ok(_) => panic!("partition 99 is out of range; expected an error"),
    };
    assert_eq!(refused.message(), "Invalid partition 99 for PartitionIsolatorExec");
    let status = execution_failed(&refused.message());
    assert_eq!(status.code, Code::Internal);
    assert!(status.message.contains("partition stream"), "{status:?}");
    // the first partition behind the advertised ones does not exist either
    assert!(handler.get_stream(&ticket_for(1)).unwrap().is_err());
}

#[test]
fn a_failed_execution_is_answered_as_the_query_engine_shows_it() {
    let status = execution_failed("Internal error: boom.");
    assert_eq!(status.code, Code::Internal);
    assert_eq!(status.message, "Could not get partition stream from plan Internal error: boom.");
}

#[test]
fn a_malformed_ticket_is_rejected() {
    let handler = handler_for(leaf_plan(1));
    let status = match handler.get_stream(&[0xff, 0xff, 0xff]) {
        Err(s) => s,
        Ok(_) => panic!("garbage ticket; expected an error"),
    };
    assert_eq!(status.code, Code::Internal);
    assert!(status.message.starts_with("[test], Unexpected error extracting ticket "));
}

#[test]
fn a_handler_without_a_plan_refuses() {
    let handler = DFRayProcessorHandler::new("[fresh]".to_string());
    let status = match handler.get_stream(&ticket_for(0)) {
        Err(s) => s,
        Ok(_) => panic!("handler has no plan; expected an error"),
    };
    assert!(status.message.contains("No inner found"), "{status:?}");
    assert_eq!(status.message, "[fresh] No inner found");
}

#[test]
fn updating_the_plan_replaces_what_is_served() {
    let mut handler = handler_for(leaf_plan(1));
    assert!(handler.get_stream(&ticket_for(0)).unwrap().is_ok());

    // a second query reuses the actor with a wider plan
    handler.update_plan(Ok(hosted(leaf_plan(3), vec![0, 1, 2]))).unwrap();
    match handler.get_stream(&ticket_for(2)).unwrap().unwrap() {
        Source::Operator { operator, .. } => assert_eq!(operator.partition_count, 3),
        other => panic!("expected the wider leaf, got {other:?}"),
    }

    // an update that failed changes nothing
    assert_eq!(handler.update_plan(Err("no".to_string())), Err("no".to_string()));
    match handler.get_stream(&ticket_for(2)).unwrap().unwrap() {
        Source::Operator { operator, .. } => assert_eq!(operator.partition_count, 3),
        other => panic!("expected the wider leaf, got {other:?}"),
    }
}

#[test]
fn an_isolated_plan_reads_what_its_processor_serves() {
    let isolated = ExecutionPlan::PartitionIsolator(PartitionIsolatorExec::new(leaf_plan(4), 2));
    let mut handler = DFRayProcessorHandler::new("[iso]".to_string());
    handler.update_plan(Ok(hosted(isolated, vec![3]))).unwrap();
    match handler.get_stream(&ticket_for(0)).unwrap().unwrap() {
        Source::Operator { partition, .. } => assert_eq!(partition, 3),
        other => panic!("expected the leaf, got {other:?}"),
    }
    assert!(matches!(handler.get_stream(&ticket_for(1)), Ok(Ok(Source::Empty))));
}

#[test]
fn a_stream_that_breaks_off_is_reported() {
    let handler = DFRayProcessorHandler::new("[x]".to_string());
    let status = handler.building_failed("oops");
    assert_eq!(status.code, Code::Internal);
    assert_eq!(status.message, "[x] Unexpected error building stream oops");
}

#[test]
fn the_service_has_no_address_until_it_starts_up() {
    let mut svc = DFRayProcessorService::new("[svc]".to_string());
    match svc.addr() {
        Err(e) => {
            assert!(e.contains("Couldn't get addr"), "{e:?}");
            assert_eq!(e, "[[svc]],Couldn't get addr");
        }
        Ok(a) => panic!("not bound yet, but got {a}"),
    }

    assert_eq!(svc.start_up(Err("no interface".to_string())), Err("no interface".to_string()));
    assert!(svc.addr().is_err());

    svc.start_up(Ok("10.0.0.1:4000".to_string())).unwrap();
    assert_eq!(svc.addr(), Ok("10.0.0.1:4000".to_string()));
    assert_eq!(bind_host("10.0.0.1"), "10.0.0.1:0");
}

#[test]
fn a_service_is_served_once() {
    let mut svc = DFRayProcessorService::new("svc".to_string());
    assert!(!svc.can_serve());
    svc.start_up(Err("no interface".to_string())).unwrap_err();
    svc.update_plan(Ok(hosted(leaf_plan(1), vec![0]))).unwrap();
    assert!(!svc.can_serve(), "start_up has not completed");
    svc.start_up(Ok("10.0.0.1:4000".to_string())).unwrap();
    assert!(svc.can_serve());
    svc.update_plan(Err("no".to_string())).unwrap_err();
    assert!(svc.can_serve());
    svc.serve();
    assert!(!svc.can_serve());
    assert!(svc.handler.get_stream(&ticket_for(0)).unwrap().is_ok());
    assert!(svc.addr().is_ok());
    // nor does another socket make it servable again
    svc.start_up(Ok("10.0.0.1:4001".to_string())).unwrap();
    assert!(!svc.can_serve());
}

struct Echo;

impl FlightHandler for Echo {
    type Stream<'a> = Vec<u8>;

    fn get_stream<'a>(&'a self, ticket: &[u8]) -> Result<Vec<u8>, Status> {
        Ok(ticket.to_vec())
    }
}

#[test]
fn do_get_delegates_to_the_handler() {
    let serv = FlightServ { handler: Echo };
    assert_eq!(serv.do_get(&[1, 2, 3]).unwrap(), vec![1, 2, 3]);
    assert_eq!(serv.answer(FlightMethod::DoGet, &[1, 2, 3]).unwrap(), vec![1, 2, 3]);
}

#[test]
fn every_other_flight_method_is_refused() {
    let s = FlightServ { handler: Echo };
    for (method, message) in [
        (FlightMethod::DoPut, "Unimplemented: do put"),
        (FlightMethod::Handshake, "Unimplemented: handshake"),
        (FlightMethod::ListFlights, "Unimplemented: list_flights"),
        (FlightMethod::GetFlightInfo, "Unimplemented: get_flight_info"),
        (FlightMethod::PollFlightInfo, "Unimplemented: poll_flight_info"),
        (FlightMethod::GetSchema, "Unimplemented: get_schema"),
        (FlightMethod::DoAction, "Unimplemented: do action"),
        (FlightMethod::ListActions, "Unimplemented: list_actions"),
        (FlightMethod::DoExchange, "Unimplemented: do_exchange"),
    ] {
        match s.answer(method, &[]) {
            Err(status) => {
                assert_eq!(status.code, Code::Unimplemented);
                assert_eq!(status.message, message);
            }
            Ok(_) => panic!("{method:?} unexpectedly succeeded"),
        }
    }
}

fn clients(entries: &[(usize, usize, &[usize])]) -> ServiceClients {
    let mut map: HashMap<usize, HashMap<usize, Vec<usize>>> = HashMap::new();
    for (stage, partition, list) in entries {
        map.entry(*stage).or_default().insert(*partition, list.to_vec());
    }
    ServiceClients(map)
}

#[test]
fn executing_without_the_clients_extension_is_an_error() {
    match reader(3, 2).execute(0, None) {
        Err(e) => {
            assert!(e.message().contains("Flight Client not in context"));
            assert_eq!(e.message(), "RayStageReaderExec[3-0]: Flight Client not in context");
        }
        Ok(_) => panic!("expected an error with no ServiceClients extension"),
    }
}

#[test]
fn executing_a_stage_nobody_serves_is_an_error() {
    // a client map that knows about some other stage entirely
    let map = clients(&[(99, 0, &[])]);

    match reader(3, 2).execute(0, Some(&map)) {
        Err(e) => {
            assert!(e.message().contains("No flight clients found for"));
            assert!(e.message().contains("3:0"), "got: {e:?}");
            assert_eq!(
                e.message(),
                "RayStageReaderExec[3-0]: No flight clients found for 3:0, have [(99, 0)]"
            );
        }
        Ok(_) => panic!("stage 3 has no clients; expected an error"),
    }
}

#[test]
fn what_is_served_is_listed() {
    let map = clients(&[(9, 1, &[]), (9, 2, &[0])]);
    let message = reader(3, 2).execute(1, Some(&map)).unwrap_err().message();
    let head = "RayStageReaderExec[3-1]: No flight clients found for 3:1, have ";
    assert!(
        message == format!("{head}[(9, 1), (9, 2)]") || message == format!("{head}[(9, 2), (9, 1)]"),
        "got: {message}"
    );
}

#[test]
fn an_empty_client_list_yields_an_empty_stream() {
    let map = clients(&[(3, 1, &[])]);
    let request = reader(3, 2).execute(1, Some(&map)).unwrap();
    assert!(request.clients.is_empty());
    let fetch = StageFetch::new(request.name);
    assert!(fetch.finish().is_empty(), "no peers means no rows");
}

#[test]
fn every_client_is_asked_for_the_partition() {
    let map = clients(&[(3, 1, &[4, 2]), (3, 0, &[7])]);
    let request = reader(3, 2).execute(1, Some(&map)).unwrap();
    assert_eq!(request.clients, vec![4, 2]);
    assert_eq!(extract_ticket(&request.ticket), Ok(1));
    assert_eq!(request.name, "RayStageReaderExec[3-1]:");
}

#[test]
fn streams_are_merged_only_if_no_client_failed() {
    let mut fetch = StageFetch::new("RayStageReaderExec[3-1]:".to_string());
    assert_eq!(fetch.answered(Ok(5)), None);
    assert_eq!(fetch.answered(Ok(6)), None);
    assert_eq!(fetch.finish(), vec![5, 6]);

    let mut fetch = StageFetch::new("RayStageReaderExec[3-1]:".to_string());
    assert_eq!(
        fetch.answered(Err("gone".to_string())),
        Some("RayStageReaderExec[3-1]: Error getting flight stream: gone".to_string())
    );
    assert_eq!(fetch.answered(Ok(6)), None);
    assert!(fetch.finish().is_empty());

    assert_eq!(
        consuming_error("RayStageReaderExec[3-1]:", "cut"),
        "RayStageReaderExec[3-1]: Error consuming flight stream: cut"
    );
}

#[test]
fn a_hosted_reader_asks_its_peers() {
    let plan = ExecutionPlan::StageReader(reader(1, 2));
    let found = configure_ctx(&plan, &addrs(&[(1, 0, &["a"]), (1, 1, &["b", "c"])]));
    let names = found.addresses.clone();
    let inner = DFRayProcessorHandlerInner::new(found, Ok(()), plan, vec![0], "").unwrap();
    let mut handler = DFRayProcessorHandler::new("[h]".to_string());
    handler.update_plan(Ok(inner)).unwrap();
    match handler.get_stream(&ticket_for(1)).unwrap().unwrap() {
        Source::Remote(request) => {
            let asked: Vec<&str> = request.clients.iter().map(|c| names[*c].as_str()).collect();
            assert_eq!(asked, vec!["b", "c"]);
            assert_eq!(extract_ticket(&request.ticket), Ok(1));
        }
        other => panic!("expected a request to peers, got {other:?}"),
    };
    let refused = handler.get_stream(&ticket_for(5)).unwrap().unwrap_err();
    assert!(refused.message().starts_with("RayStageReaderExec[1-5]: No flight clients"));
}
