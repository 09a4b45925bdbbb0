//! Resource bounds. Every allocation that a peer can cause is bounded by one of these.
use vstd::prelude::*;

verus! {

/// Bounds on packets, sessions, queues, retained messages and the recovery image.
#[derive(Clone, Copy, Debug, PartialEq, Eq, Structural)]
pub struct Limits {
    pub max_mqtt_packet_size: usize,
    pub max_topic_bytes: usize,
    pub max_topic_depth: usize,
    pub max_subscription_filters_per_packet: usize,
    pub max_client_id_bytes: usize,
    pub max_will_payload_bytes: usize,
    pub max_username_bytes: usize,
    pub max_password_bytes: usize,
    pub max_mqtt_property_bytes: usize,
    pub max_mqtt_content_type_bytes: usize,
    pub max_mqtt_response_topic_bytes: usize,
    pub max_mqtt_correlation_data_bytes: usize,
    pub max_mqtt_user_properties: usize,
    pub max_mqtt_user_property_bytes: usize,
    pub max_inflight_qos1_per_session: usize,
    pub max_inflight_qos2_per_session: usize,
    pub max_inflight_qos1_per_tenant: usize,
    pub max_inflight_qos2_per_tenant: usize,
    pub mqtt_session_idle_ttl_ms: u64,
    pub max_outbound_bytes: usize,
    pub max_outbound_bytes_per_tenant: usize,
    pub max_outbound_bytes_per_connection: usize,
    pub max_outbound_messages_per_connection: usize,
    pub max_subscriptions: usize,
    pub max_subscriptions_per_connection: usize,
    pub max_subscriptions_per_session: usize,
    pub max_subscriptions_per_device: usize,
    pub max_subscriptions_per_tenant: usize,
    pub max_mqtt_session_state_bytes: usize,
    pub max_mqtt_session_state_bytes_per_tenant: usize,
    pub global_mqtt_session_bytes: usize,
    pub max_persistent_sessions: usize,
    pub max_persistent_sessions_per_tenant: usize,
    pub max_retained_messages: usize,
    pub max_retained_messages_per_tenant: usize,
    pub max_retained_bytes: usize,
    pub max_retained_bytes_per_tenant: usize,
    pub max_retained_message_bytes: usize,
    pub max_offline_messages: usize,
    pub max_offline_messages_per_session: usize,
    pub max_offline_messages_per_tenant: usize,
    pub max_offline_bytes: usize,
    pub max_offline_bytes_per_session: usize,
    pub max_offline_bytes_per_tenant: usize,
    pub max_connections: usize,
    pub max_connections_per_tenant: usize,
    pub mqtt_recovery_max_bytes: usize,
}

/// The bounds that hold where none are given.
pub open spec fn usual_limits() -> Limits {
    Limits {
        max_mqtt_packet_size: 65_536,
        max_topic_bytes: 512,
        max_topic_depth: 16,
        max_subscription_filters_per_packet: 32,
        max_client_id_bytes: 128,
        max_will_payload_bytes: 65_536,
        max_username_bytes: 256,
        max_password_bytes: 1_024,
        max_mqtt_property_bytes: 8_192,
        max_mqtt_content_type_bytes: 256,
        max_mqtt_response_topic_bytes: 512,
        max_mqtt_correlation_data_bytes: 1_024,
        max_mqtt_user_properties: 32,
        max_mqtt_user_property_bytes: 4_096,
        max_inflight_qos1_per_session: 64,
        max_inflight_qos2_per_session: 64,
        max_inflight_qos1_per_tenant: 4_096,
        max_inflight_qos2_per_tenant: 4_096,
        mqtt_session_idle_ttl_ms: 86_400_000,
        max_outbound_bytes: 67_108_864,
        max_outbound_bytes_per_tenant: 16_777_216,
        max_outbound_bytes_per_connection: 1_048_576,
        max_outbound_messages_per_connection: 256,
        max_subscriptions: 65_536,
        max_subscriptions_per_connection: 64,
        max_subscriptions_per_session: 64,
        max_subscriptions_per_device: 256,
        max_subscriptions_per_tenant: 8_192,
        max_mqtt_session_state_bytes: 2_097_152,
        max_mqtt_session_state_bytes_per_tenant: 33_554_432,
        global_mqtt_session_bytes: 134_217_728,
        max_persistent_sessions: 2_000,
        max_persistent_sessions_per_tenant: 500,
        max_retained_messages: 1_024,
        max_retained_messages_per_tenant: 256,
        max_retained_bytes: 67_108_864,
        max_retained_bytes_per_tenant: 16_777_216,
        max_retained_message_bytes: 65_536,
        max_offline_messages: 16_384,
        max_offline_messages_per_session: 128,
        max_offline_messages_per_tenant: 2_048,
        max_offline_bytes: 134_217_728,
        max_offline_bytes_per_session: 1_048_576,
        max_offline_bytes_per_tenant: 16_777_216,
        max_connections: 10_000,
        max_connections_per_tenant: 1_000,
        mqtt_recovery_max_bytes: 268_435_456,
    }
}

impl Default for Limits {
    fn default() -> (limits: Limits)
        ensures
            limits == usual_limits(),
    {
        Limits {
            max_mqtt_packet_size: 65_536,
            max_topic_bytes: 512,
            max_topic_depth: 16,
            max_subscription_filters_per_packet: 32,
            max_client_id_bytes: 128,
            max_will_payload_bytes: 65_536,
            max_username_bytes: 256,
            max_password_bytes: 1_024,
            max_mqtt_property_bytes: 8_192,
            max_mqtt_content_type_bytes: 256,
            max_mqtt_response_topic_bytes: 512,
            max_mqtt_correlation_data_bytes: 1_024,
            max_mqtt_user_properties: 32,
            max_mqtt_user_property_bytes: 4_096,
            max_inflight_qos1_per_session: 64,
            max_inflight_qos2_per_session: 64,
            max_inflight_qos1_per_tenant: 4_096,
            max_inflight_qos2_per_tenant: 4_096,
            mqtt_session_idle_ttl_ms: 86_400_000,
            max_outbound_bytes: 67_108_864,
            max_outbound_bytes_per_tenant: 16_777_216,
            max_outbound_bytes_per_connection: 1_048_576,
            max_outbound_messages_per_connection: 256,
            max_subscriptions: 65_536,
            max_subscriptions_per_connection: 64,
            max_subscriptions_per_session: 64,
            max_subscriptions_per_device: 256,
            max_subscriptions_per_tenant: 8_192,
            max_mqtt_session_state_bytes: 2_097_152,
            max_mqtt_session_state_bytes_per_tenant: 33_554_432,
            global_mqtt_session_bytes: 134_217_728,
            max_persistent_sessions: 2_000,
            max_persistent_sessions_per_tenant: 500,
            max_retained_messages: 1_024,
            max_retained_messages_per_tenant: 256,
            max_retained_bytes: 67_108_864,
            max_retained_bytes_per_tenant: 16_777_216,
            max_retained_message_bytes: 65_536,
            max_offline_messages: 16_384,
            max_offline_messages_per_session: 128,
            max_offline_messages_per_tenant: 2_048,
            max_offline_bytes: 134_217_728,
            max_offline_bytes_per_session: 1_048_576,
            max_offline_bytes_per_tenant: 16_777_216,
            max_connections: 10_000,
            max_connections_per_tenant: 1_000,
            mqtt_recovery_max_bytes: 268_435_456,
        }
    }
}

} // verus!
