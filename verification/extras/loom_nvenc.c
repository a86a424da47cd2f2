/* A C face of libavcodec's hevc_nvenc for the application: the structures whose layout only the
   headers know. */

#include <stdint.h>
#include <stdlib.h>
#include <libavcodec/avcodec.h>
#include <libavutil/opt.h>

struct loom_nvenc_settings {
    int32_t width;
    int32_t height;
    int32_t fps_num;
    int32_t fps_den;
    int32_t gop_size;
    int32_t max_b_frames;
    int32_t refs;
    int32_t rc_buffer_size;
    int64_t bit_rate;
};

struct loom_nvenc {
    const AVCodec *codec;
    AVCodecContext *ctx;
    AVFrame *frame;
    AVPacket *packet;
};

enum { FAILED_UNAVAILABLE = 1, FAILED_OPEN = 2 };

void loom_nvenc_free(struct loom_nvenc *e)
{
    av_frame_free(&e->frame);
    av_packet_free(&e->packet);
    avcodec_free_context(&e->ctx);
    free(e);
}

struct loom_nvenc *loom_nvenc_alloc(const struct loom_nvenc_settings *s, int32_t *failure)
{
    struct loom_nvenc *e = calloc(1, sizeof *e);
    AVCodecContext *c;

    *failure = FAILED_OPEN;
    if (!e)
        return NULL;
    e->codec = avcodec_find_encoder_by_name("hevc_nvenc");
    if (!e->codec) {
        *failure = FAILED_UNAVAILABLE;
        loom_nvenc_free(e);
        return NULL;
    }
    c = e->ctx = avcodec_alloc_context3(e->codec);
    if (!c) {
        loom_nvenc_free(e);
        return NULL;
    }
    c->width = s->width;
    c->height = s->height;
    c->pix_fmt = AV_PIX_FMT_YUV420P;
    c->time_base = (AVRational){ s->fps_den, s->fps_num };
    c->framerate = (AVRational){ s->fps_num, s->fps_den };
    c->gop_size = s->gop_size;
    c->max_b_frames = s->max_b_frames;
    c->refs = s->refs;
    c->bit_rate = s->bit_rate;
    c->rc_max_rate = s->bit_rate;
    c->rc_min_rate = s->bit_rate;
    c->rc_buffer_size = s->rc_buffer_size;
    return e;
}

int32_t loom_nvenc_set(struct loom_nvenc *e, const char *key, const char *value)
{
    return av_opt_set(e->ctx->priv_data, key, value, 0);
}

int32_t loom_nvenc_set_int(struct loom_nvenc *e, const char *key, int64_t value)
{
    return av_opt_set_int(e->ctx->priv_data, key, value, 0);
}

int32_t loom_nvenc_open(struct loom_nvenc *e)
{
    return avcodec_open2(e->ctx, e->codec, NULL);
}

int32_t loom_nvenc_ready(struct loom_nvenc *e)
{
    e->frame = av_frame_alloc();
    e->packet = av_packet_alloc();
    return e->frame && e->packet;
}

int32_t loom_nvenc_send(struct loom_nvenc *e, const uint8_t *const *planes, const int32_t *strides,
                        int64_t pts, int32_t idr)
{
    AVFrame *f = e->frame;
    int i;

    f->width = e->ctx->width;
    f->height = e->ctx->height;
    f->format = AV_PIX_FMT_YUV420P;
    for (i = 0; i < 3; i++) {
        f->data[i] = (uint8_t *)planes[i];
        f->linesize[i] = strides[i];
    }
    f->pts = pts;
    f->pict_type = idr ? AV_PICTURE_TYPE_I : AV_PICTURE_TYPE_NONE;
    return avcodec_send_frame(e->ctx, f);
}

int32_t loom_nvenc_receive(struct loom_nvenc *e, int32_t *flags, const uint8_t **data, int32_t *size)
{
    int ret = avcodec_receive_packet(e->ctx, e->packet);

    if (ret >= 0) {
        *flags = e->packet->flags;
        *data = e->packet->data;
        *size = e->packet->size;
    }
    return ret;
}

void loom_nvenc_release(struct loom_nvenc *e)
{
    av_packet_unref(e->packet);
}
