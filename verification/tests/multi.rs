use orangu::multi::{
    gather, host_stream_min_tokens, Device, MultiDeviceBackend, Op, Route,
    HOST_STREAM_TOKENS_DEFAULT,
};
use orangu::quantize::{GGML_TYPE_F32, GGML_TYPE_Q4_K};

fn device(card: bool) -> Device {
    Device { card, types: vec![GGML_TYPE_F32, GGML_TYPE_Q4_K] }
}

fn without_q4(card: bool) -> Device {
    Device { card, types: vec![GGML_TYPE_F32] }
}

fn pair() -> MultiDeviceBackend {
    MultiDeviceBackend::new(vec![device(false), device(false)])
}

fn op(device: usize) -> Op {
    Op { n_tokens: 1, device, ggml_type: GGML_TYPE_F32 }
}

#[test]
fn a_matmul_runs_on_the_device_its_weight_was_placed_on() {
    let multi = pair();
    assert_eq!(multi.backend_for(0), 0);
    assert_eq!(multi.backend_for(1), 1);
    assert_eq!(multi.route(&op(0), usize::MAX), Route::Device(0));
    assert_eq!(multi.route(&op(1), usize::MAX), Route::Device(1));
}

/// A batch spanning both devices comes back **in the caller's order**, not in device order.
#[test]
fn a_split_batch_returns_results_in_the_order_they_were_given() {
    let multi = pair();
    let groups = multi.batch_by_device(&[op(1), op(0), op(1)], true, usize::MAX);
    // Each device sees its own operations as one batch, not one at a time.
    assert_eq!(groups.len(), 2);
    let results: Vec<Vec<f32>> = groups
        .iter()
        .map(|g| match g.route {
            Route::Device(d) | Route::Stream(d) => vec![d as f32; g.ops.len()],
        })
        .collect();
    let out = gather(&groups, results, 3);
    assert_eq!(out.len(), 3);
    assert_eq!(out[0], 1.0);
    assert_eq!(out[1], 0.0);
    assert_eq!(out[2], 1.0);
    let ones: usize =
        groups.iter().filter(|g| g.route == Route::Device(1)).map(|g| g.ops.len()).sum();
    let zeros: usize =
        groups.iter().filter(|g| g.route == Route::Device(0)).map(|g| g.ops.len()).sum();
    assert_eq!(ones, 2);
    assert_eq!(zeros, 1);
}

/// A weight tagged for a device that isn't in the set must still be computed, on the last device.
#[test]
fn an_out_of_range_device_tag_is_clamped_rather_than_fatal() {
    let multi = pair();
    assert_eq!(multi.backend_for(7), 1);
    assert_eq!(multi.route(&op(7), usize::MAX), Route::Device(1));
}

/// A type only one device can run is not a type the model can run.
#[test]
fn a_type_missing_on_one_device_is_unsupported_for_the_set() {
    let multi = MultiDeviceBackend::new(vec![device(false), without_q4(false)]);
    assert!(multi.supports_type(GGML_TYPE_F32));
    assert!(!multi.supports_type(GGML_TYPE_Q4_K));
}

/// No *cross-layer* fused path may ever see a split model.
#[test]
fn a_split_model_never_exposes_a_wgpu_backend() {
    let multi = pair();
    assert!(multi.as_wgpu().is_none());
}

/// Per-layer work does keep its fused kernels, on the layer's own device.
#[test]
fn per_layer_work_asks_the_layer_s_own_device() {
    let multi = MultiDeviceBackend::new(vec![
        Device { card: true, types: vec![0] },
        Device { card: true, types: vec![1] },
    ]);
    assert_eq!(multi.as_wgpu_on(1, false).unwrap().types, vec![1]);
    assert_eq!(multi.as_wgpu_on(0, false).unwrap().types, vec![0]);
    // Out of range clamps rather than panicking mid-generation, same as the matmul route.
    assert_eq!(multi.as_wgpu_on(9, false).unwrap().types, vec![1]);
    assert!(multi.as_wgpu_on(1, true).is_none());
    let plain = pair();
    assert!(plain.as_wgpu_on(1, false).is_none());
    assert!(plain.as_wgpu_on(0, false).is_none());
    assert!(plain.as_wgpu_on(9, false).is_none());
}

/// A single-device backend answers the same thing whatever layer asks.
#[test]
fn a_single_device_backend_ignores_the_layer_s_device() {
    let solo = device(false);
    assert!(solo.as_wgpu_on(0).is_none());
    assert!(solo.as_wgpu_on(7).is_none());
    let card = device(true);
    assert_eq!(card.as_wgpu_on(7).unwrap(), card.as_wgpu().unwrap());
}

#[test]
fn a_large_host_operation_streams_through_a_card() {
    let multi = MultiDeviceBackend::new(vec![device(false), device(true)]);
    assert_eq!(multi.streamer(), Some(1));
    let big = Op { n_tokens: 64, device: 0, ggml_type: GGML_TYPE_Q4_K };
    let small = Op { n_tokens: 63, device: 0, ggml_type: GGML_TYPE_Q4_K };
    assert!(multi.streams(&big, 64));
    assert!(!multi.streams(&small, 64));
    // Nought keeps every host layer on the host.
    assert!(!multi.streams(&big, 0));
    assert_eq!(multi.route(&big, 64), Route::Stream(1));
    assert_eq!(multi.route(&small, 64), Route::Device(0));
    // What already stands on a card has no need of it.
    assert!(!multi.streams(&Op { n_tokens: 64, device: 1, ggml_type: GGML_TYPE_Q4_K }, 64));
    // A batch that is not to stream never does.
    let groups = multi.batch_by_device(&[big], false, 64);
    assert_eq!(groups[0].route, Route::Device(0));
}

#[test]
fn the_streaming_threshold_is_read_from_its_setting() {
    assert_eq!(host_stream_min_tokens(None), HOST_STREAM_TOKENS_DEFAULT);
    assert_eq!(host_stream_min_tokens(Some("17")), 17);
    assert_eq!(host_stream_min_tokens(Some("many")), HOST_STREAM_TOKENS_DEFAULT);
}
